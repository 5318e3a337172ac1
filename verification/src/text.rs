//! Character-level reading of text: UTF-8 widths, searching, splitting, lines and
//! decimal numbers.

use vstd::prelude::*;
use vstd::utf8::{encode_scalar, encode_utf8};

verus! {

broadcast use vstd::string::group_string_axioms;

/// The number of bytes of the UTF-8 encoding of `c`.
pub open spec fn char_width(c: char) -> nat {
    encode_scalar(c as u32).len()
}

/// The number of bytes of the UTF-8 encoding of `cs`.
pub open spec fn byte_len(cs: Seq<char>) -> nat {
    encode_utf8(cs).len()
}

/// The characters of `s`, in order.
pub fn to_chars(s: &str) -> (r: Vec<char>)
    ensures
        r@ == s@,
{
    let mut v: Vec<char> = Vec::new();
    for c in it: s.chars()
        invariant
            it.seq() == s@,
            v@ == it.seq().take(it.index()),
    {
        v.push(c);
    }
    v
}

/// The number of bytes of the UTF-8 encoding of `c`.
pub fn utf8_width(c: char) -> (w: usize)
    ensures
        w == char_width(c),
        1 <= w <= 4,
{
    let u = c as u32;
    if u <= 0x7f {
        1
    } else if u <= 0x7ff {
        2
    } else if u <= 0xffff {
        3
    } else {
        4
    }
}

/// The encoding of a concatenation is the concatenation of the encodings.
pub proof fn lemma_byte_len_add(a: Seq<char>, b: Seq<char>)
    ensures
        byte_len(a + b) == byte_len(a) + byte_len(b),
    decreases a.len(),
{
    if a.len() > 0 {
        assert((a + b).drop_first() =~= a.drop_first() + b);
        lemma_byte_len_add(a.drop_first(), b);
    } else {
        assert(a + b =~= b);
    }
}

/// Every character takes at least one byte.
pub proof fn lemma_byte_len_at_least_len(cs: Seq<char>)
    ensures
        byte_len(cs) >= cs.len(),
    decreases cs.len(),
{
    if cs.len() > 0 {
        lemma_byte_len_at_least_len(cs.drop_first());
    }
}

/// The byte length of a sequence is the width of its first character plus the byte
/// length of the rest.
pub proof fn lemma_byte_len_first(cs: Seq<char>)
    requires
        cs.len() > 0,
    ensures
        byte_len(cs) == char_width(cs[0]) + byte_len(cs.drop_first()),
{
}

/// Whether the UTF-8 encoding of `cs` has exactly `n` bytes.
pub fn byte_len_is(cs: &Vec<char>, n: usize) -> (r: bool)
    ensures
        r == (byte_len(cs@) == n),
{
    let mut sum: usize = 0;
    let mut i: usize = 0;
    while i < cs.len()
        invariant
            i <= cs.len(),
            sum <= n,
            sum == byte_len(cs@.take(i as int)),
        decreases cs.len() - i,
    {
        let w = utf8_width(cs[i]);
        proof {
            assert(cs@.take(i + 1) =~= cs@.take(i as int) + seq![cs@[i as int]]);
            lemma_byte_len_add(cs@.take(i as int), seq![cs@[i as int]]);
            assert(seq![cs@[i as int]].drop_first() =~= Seq::<char>::empty());
            lemma_byte_len_first(seq![cs@[i as int]]);
        }
        if w > n - sum {
            proof {
                assert(cs@ =~= cs@.take(i + 1) + cs@.skip(i + 1));
                lemma_byte_len_add(cs@.take(i + 1), cs@.skip(i + 1));
            }
            return false;
        }
        sum = sum + w;
        i = i + 1;
    }
    assert(cs@.take(i as int) =~= cs@);
    sum == n
}

/// The index of the first `x` in `cs`, or `cs.len()` when there is none.
pub open spec fn index_of(cs: Seq<char>, x: char) -> nat
    decreases cs.len(),
{
    if cs.len() == 0 {
        0
    } else if cs[0] == x {
        0
    } else {
        1 + index_of(cs.drop_first(), x)
    }
}

/// `index_of` is the first position holding `x`.
pub proof fn lemma_index_of(cs: Seq<char>, x: char, i: int)
    requires
        0 <= i <= cs.len(),
        forall|j: int| 0 <= j < i ==> cs[j] != x,
        i == cs.len() || cs[i] == x,
    ensures
        index_of(cs, x) == i,
    decreases i,
{
    if i > 0 {
        lemma_index_of(cs.drop_first(), x, i - 1);
    }
}

/// `index_of` never passes the end.
pub proof fn lemma_index_of_bound(cs: Seq<char>, x: char)
    ensures
        index_of(cs, x) <= cs.len(),
        index_of(cs, x) < cs.len() ==> cs[index_of(cs, x) as int] == x,
        forall|j: int| 0 <= j < index_of(cs, x) ==> cs[j] != x,
    decreases cs.len(),
{
    if cs.len() > 0 && cs[0] != x {
        lemma_index_of_bound(cs.drop_first(), x);
        assert forall|j: int| 0 <= j < index_of(cs, x) implies cs[j] != x by {
            if j > 0 {
                assert(cs[j] == cs.drop_first()[j - 1]);
            }
        }
    }
}

/// The position of the first `x` at or after `from`, or `cs.len()` when there is none.
pub fn find_from(cs: &Vec<char>, from: usize, x: char) -> (r: usize)
    requires
        from <= cs.len(),
    ensures
        r == from + index_of(cs@.skip(from as int), x),
        from <= r <= cs.len(),
{
    let mut j = from;
    while j < cs.len() && cs[j] != x
        invariant
            from <= j <= cs.len(),
            forall|k: int| from <= k < j ==> cs@[k] != x,
        decreases cs.len() - j,
    {
        j = j + 1;
    }
    proof {
        lemma_index_of(cs@.skip(from as int), x, j - from);
    }
    j
}

/// The pieces of `cs` between occurrences of `sep`, as `str::split` gives them: a
/// sequence with `sep` at both ends, or twice in a row, yields empty pieces.
pub open spec fn split(cs: Seq<char>, sep: char) -> Seq<Seq<char>>
    decreases cs.len(),
{
    let i = index_of(cs, sep);
    if i < cs.len() {
        seq![cs.take(i as int)] + split(cs.skip(i + 1 as int), sep)
    } else {
        seq![cs]
    }
}

/// `split` yields at least one piece.
pub proof fn lemma_split_nonempty(cs: Seq<char>, sep: char)
    ensures
        split(cs, sep).len() >= 1,
{
}

/// Splitting text that starts with a piece free of `sep`, then `sep`, gives that piece
/// followed by the pieces of the rest.
pub proof fn lemma_split_cons(a: Seq<char>, rest: Seq<char>, sep: char)
    requires
        !a.contains(sep),
    ensures
        split(a + seq![sep] + rest, sep) == seq![a] + split(rest, sep),
{
    let cs = a + seq![sep] + rest;
    assert forall|j: int| 0 <= j < a.len() implies cs[j] != sep by {
        assert(cs[j] == a[j]);
    }
    lemma_index_of(cs, sep, a.len() as int);
    assert(cs.take(a.len() as int) =~= a);
    assert(cs.skip(a.len() + 1 as int) =~= rest);
}

/// Text free of `sep` is a single piece.
pub proof fn lemma_split_single(a: Seq<char>, sep: char)
    requires
        !a.contains(sep),
    ensures
        split(a, sep) == seq![a],
{
    assert forall|j: int| 0 <= j < a.len() implies a[j] != sep by {
        if a[j] == sep {
            assert(a.contains(sep));
        }
    }
    lemma_index_of(a, sep, a.len() as int);
}

/// The pieces of `cs` between occurrences of `sep`, as index ranges into `cs`.
pub fn split_ranges(cs: &Vec<char>, sep: char) -> (r: Vec<(usize, usize)>)
    ensures
        r@.len() == split(cs@, sep).len(),
        forall|k: int|
            #![trigger r@[k]]
            0 <= k < r@.len() ==> r@[k].0 <= r@[k].1 <= cs.len() && cs@.subrange(
                r@[k].0 as int,
                r@[k].1 as int,
            ) == split(cs@, sep)[k],
{
    let mut r: Vec<(usize, usize)> = Vec::new();
    let mut pos: usize = 0;
    let ghost mut pieces: Seq<Seq<char>> = Seq::empty();
    assert(cs@.skip(0) =~= cs@);
    loop
        invariant_except_break
            pos <= cs.len(),
            split(cs@, sep) == pieces + split(cs@.skip(pos as int), sep),
        invariant
            pieces.len() == r@.len(),
            forall|k: int|
                #![trigger r@[k]]
                0 <= k < r@.len() ==> r@[k].0 <= r@[k].1 <= cs.len() && cs@.subrange(
                    r@[k].0 as int,
                    r@[k].1 as int,
                ) == pieces[k],
        ensures
            split(cs@, sep) == pieces,
        decreases cs.len() - pos,
    {
        let i = find_from(cs, pos, sep);
        let ghost rest = cs@.skip(pos as int);
        proof {
            lemma_index_of_bound(rest, sep);
        }
        let ghost old_r = r@;
        let ghost old_pieces = pieces;
        r.push((pos, i));
        let ghost piece = cs@.subrange(pos as int, i as int);
        proof {
            pieces = pieces.push(piece);
            assert forall|k: int| #![trigger r@[k]] 0 <= k < r@.len() implies r@[k].0 <= r@[k].1 <= cs.len()
                && cs@.subrange(r@[k].0 as int, r@[k].1 as int) == pieces[k] by {
                if k < old_r.len() {
                    assert(r@[k] == old_r[k]);
                    assert(pieces[k] == old_pieces[k]);
                }
            }
        }
        if i == cs.len() {
            proof {
                assert(piece =~= rest);
                assert(split(cs@, sep) =~= pieces);
            }
            break;
        } else {
            proof {
                assert(rest.take(i - pos) =~= piece);
                assert(rest.skip(i - pos + 1) =~= cs@.skip(i + 1));
                assert(split(cs@, sep) =~= pieces + split(cs@.skip(i + 1), sep));
            }
            pos = i + 1;
        }
    }
    assert forall|k: int| #![trigger r@[k]] 0 <= k < r@.len() implies r@[k].0 <= r@[k].1 <= cs.len()
        && cs@.subrange(r@[k].0 as int, r@[k].1 as int) == split(cs@, sep)[k] by {
        assert(pieces[k] == split(cs@, sep)[k]);
    }
    r
}

/// `line` without one trailing carriage return, if it has one.
pub open spec fn strip_cr(line: Seq<char>) -> Seq<char> {
    if line.len() > 0 && line.last() == '\r' {
        line.drop_last()
    } else {
        line
    }
}

/// The lines of `cs`, as `str::lines` gives them: the pieces between line feeds, where a
/// piece ended by a line feed loses one trailing carriage return, and a final empty piece
/// (after a last line feed, or of empty text) is no line.
pub open spec fn lines(cs: Seq<char>) -> Seq<Seq<char>> {
    let pieces = split(cs, '\n');
    let n = pieces.len() as int;
    let ended = pieces.take(n - 1).map_values(|l: Seq<char>| strip_cr(l));
    if pieces[n - 1].len() == 0 {
        ended
    } else {
        ended.push(pieces[n - 1])
    }
}

/// Ending text with one more `sep` adds one empty piece at the end.
pub proof fn lemma_split_push(cs: Seq<char>, sep: char)
    ensures
        split(cs.push(sep), sep) == split(cs, sep).push(Seq::<char>::empty()),
    decreases cs.len(),
{
    let p = cs.push(sep);
    let i = index_of(cs, sep);
    lemma_index_of_bound(cs, sep);
    if i < cs.len() {
        assert forall|j: int| 0 <= j < i implies p[j] != sep by {
            assert(p[j] == cs[j]);
        }
        lemma_index_of(p, sep, i as int);
        assert(p.take(i as int) =~= cs.take(i as int));
        assert(p.skip(i + 1 as int) =~= cs.skip(i + 1 as int).push(sep));
        lemma_split_push(cs.skip(i + 1 as int), sep);
        assert(split(cs.push(sep), sep) =~= split(cs, sep).push(Seq::<char>::empty()));
    } else {
        assert forall|j: int| 0 <= j < cs.len() implies p[j] != sep by {
            assert(p[j] == cs[j]);
        }
        lemma_index_of(p, sep, cs.len() as int);
        assert(p.take(cs.len() as int) =~= cs);
        assert(p.skip(cs.len() + 1 as int) =~= Seq::<char>::empty());
        assert(split(Seq::<char>::empty(), sep) =~= seq![Seq::<char>::empty()]);
        assert(split(cs.push(sep), sep) =~= split(cs, sep).push(Seq::<char>::empty()));
    }
}

/// The last piece of text that does not end in `sep` ends as the text does.
pub proof fn lemma_split_last(cs: Seq<char>, sep: char)
    requires
        cs.len() > 0,
        cs.last() != sep,
    ensures
        split(cs, sep).last().len() > 0,
        split(cs, sep).last().last() == cs.last(),
    decreases cs.len(),
{
    let i = index_of(cs, sep);
    lemma_index_of_bound(cs, sep);
    if i < cs.len() {
        let rest = cs.skip(i + 1 as int);
        assert(i + 1 < cs.len()) by {
            if i + 1 == cs.len() {
                assert(cs.last() == cs[i as int]);
            }
        }
        assert(rest.last() == cs.last());
        lemma_split_last(rest, sep);
        lemma_split_nonempty(rest, sep);
        assert(split(cs, sep).last() == split(rest, sep).last());
    }
}

/// Text that does not end in a line feed or a carriage return has the same lines with a
/// final line feed added: the final line feed is optional.
pub proof fn lemma_lines_final_newline(cs: Seq<char>)
    requires
        cs.len() > 0,
        cs.last() != '\n',
        cs.last() != '\r',
    ensures
        lines(cs.push('\n')) == lines(cs),
{
    let p = split(cs, '\n');
    lemma_split_nonempty(cs, '\n');
    lemma_split_push(cs, '\n');
    lemma_split_last(cs, '\n');
    let q = split(cs.push('\n'), '\n');
    let n = p.len() as int;
    assert(q.take(n) =~= p);
    assert(p.take(n - 1).push(p[n - 1]) =~= p);
    assert(strip_cr(p[n - 1]) == p[n - 1]);
    assert(lines(cs.push('\n')) =~= lines(cs));
}

/// The lines of `cs`, as index ranges into `cs`.
pub fn line_ranges(cs: &Vec<char>) -> (r: Vec<(usize, usize)>)
    ensures
        r@.len() == lines(cs@).len(),
        forall|k: int|
            #![trigger r@[k]]
            0 <= k < r@.len() ==> r@[k].0 <= r@[k].1 <= cs.len() && cs@.subrange(
                r@[k].0 as int,
                r@[k].1 as int,
            ) == lines(cs@)[k],
{
    let pieces = split_ranges(cs, '\n');
    let ghost ps = split(cs@, '\n');
    proof {
        lemma_split_nonempty(cs@, '\n');
    }
    let n = pieces.len();
    let ghost ended = ps.take(n - 1).map_values(|l: Seq<char>| strip_cr(l));
    let mut r: Vec<(usize, usize)> = Vec::new();
    let mut k: usize = 0;
    while k < n - 1
        invariant
            n == pieces@.len() == ps.len() >= 1,
            ended == ps.take(n - 1).map_values(|l: Seq<char>| strip_cr(l)),
            ps == split(cs@, '\n'),
            forall|j: int|
                #![trigger pieces@[j]]
                0 <= j < pieces@.len() ==> pieces@[j].0 <= pieces@[j].1 <= cs.len()
                    && cs@.subrange(pieces@[j].0 as int, pieces@[j].1 as int) == ps[j],
            k <= n - 1,
            r@.len() == k,
            forall|j: int|
                #![trigger r@[j]]
                0 <= j < k ==> r@[j].0 <= r@[j].1 <= cs.len() && cs@.subrange(
                    r@[j].0 as int,
                    r@[j].1 as int,
                ) == ended[j],
        decreases n - 1 - k,
    {
        let (a, b) = pieces[k];
        let ghost piece = ps[k as int];
        assert(cs@.subrange(a as int, b as int) == piece);
        let ghost old_r = r@;
        if b > a && cs[b - 1] == '\r' {
            proof {
                assert(cs@.subrange(a as int, b - 1) =~= piece.drop_last());
            }
            r.push((a, b - 1));
        } else {
            r.push((a, b));
        }
        assert forall|j: int|
            #![trigger r@[j]]
            0 <= j < k + 1 implies r@[j].0 <= r@[j].1 <= cs.len() && cs@.subrange(
                r@[j].0 as int,
                r@[j].1 as int,
            ) == ended[j] by {
            if j < k {
                assert(r@[j] == old_r[j]);
            }
        }
        k = k + 1;
    }
    let (a, b) = pieces[n - 1];
    assert(cs@.subrange(a as int, b as int) == ps[n - 1]);
    let ghost old_r = r@;
    if a < b {
        r.push((a, b));
        assert forall|j: int|
            #![trigger r@[j]]
            0 <= j < r@.len() implies r@[j].0 <= r@[j].1 <= cs.len() && cs@.subrange(
                r@[j].0 as int,
                r@[j].1 as int,
            ) == lines(cs@)[j] by {
            if j < k {
                assert(r@[j] == old_r[j]);
            }
        }
    }
    r
}

/// Whether `c` is an ASCII decimal digit.
pub open spec fn is_digit(c: char) -> bool {
    '0' <= c <= '9'
}

/// The value of the decimal digit `c`.
pub open spec fn digit_value(c: char) -> nat {
    (c as int - '0' as int) as nat
}

/// The value of a sequence of decimal digits, most significant first.
pub open spec fn decimal_value(ds: Seq<char>) -> nat
    decreases ds.len(),
{
    if ds.len() == 0 {
        0
    } else {
        decimal_value(ds.drop_last()) * 10 + digit_value(ds.last())
    }
}

/// `cs` without its leading `+`, if it has one.
pub open spec fn without_plus(cs: Seq<char>) -> Seq<char> {
    if cs.len() > 0 && cs[0] == '+' {
        cs.drop_first()
    } else {
        cs
    }
}

/// Whether every character of `ds` is an ASCII decimal digit.
pub open spec fn all_digits(ds: Seq<char>) -> bool {
    forall|i: int| 0 <= i < ds.len() ==> is_digit(#[trigger] ds[i])
}

/// What `str::parse::<usize>` gives for `cs`: an optional `+`, then one or more ASCII
/// digits whose value fits in a `usize`; anything else is rejected.
pub open spec fn parse_usize(cs: Seq<char>) -> Option<nat> {
    let ds = without_plus(cs);
    if ds.len() > 0 && all_digits(ds) && decimal_value(ds) <= usize::MAX {
        Some(decimal_value(ds))
    } else {
        None
    }
}

/// The ASCII character of the decimal digit `d`, for `d < 10`.
pub open spec fn digit_char(d: nat) -> char {
    seq!['0', '1', '2', '3', '4', '5', '6', '7', '8', '9'][d as int]
}

/// The decimal text of `n`: its digits, most significant first, with no leading zero.
pub open spec fn decimal_text(n: nat) -> Seq<char>
    decreases n,
{
    if n < 10 {
        seq![digit_char(n)]
    } else {
        decimal_text(n / 10).push(digit_char(n % 10))
    }
}

/// The decimal text of `n` is digits whose value is `n`.
pub proof fn lemma_decimal_text(n: nat)
    ensures
        decimal_text(n).len() > 0,
        all_digits(decimal_text(n)),
        decimal_value(decimal_text(n)) == n,
    decreases n,
{
    let t = decimal_text(n);
    let d = (n % 10) as nat;
    assert(is_digit(digit_char(d)) && digit_value(digit_char(d)) == d) by {
        assert(d < 10);
        assert(d == 0 || d == 1 || d == 2 || d == 3 || d == 4 || d == 5 || d == 6 || d == 7
            || d == 8 || d == 9);
    }
    if n < 10 {
        assert(t.drop_last() =~= Seq::<char>::empty());
        assert(decimal_value(Seq::<char>::empty()) == 0);
    } else {
        lemma_decimal_text(n / 10);
        assert(t.drop_last() =~= decimal_text(n / 10));
        assert forall|i: int| 0 <= i < t.len() implies is_digit(#[trigger] t[i]) by {
            if i < t.len() - 1 {
                assert(t[i] == decimal_text(n / 10)[i]);
            }
        }
        assert(n == (n / 10) * 10 + d);
    }
}

/// Reading the decimal text of a number that fits in a `usize` gives the number back.
pub proof fn lemma_parse_decimal_text(n: nat)
    requires
        n <= usize::MAX,
    ensures
        parse_usize(decimal_text(n)) == Some(n),
{
    lemma_decimal_text(n);
    assert(is_digit(decimal_text(n)[0]));
    assert(without_plus(decimal_text(n)) == decimal_text(n));
}

/// The value of a field of at most three characters that must all be ASCII digits:
/// `None` when it is empty or holds anything else.
pub open spec fn field_value(f: Seq<char>) -> Option<nat> {
    if f.len() > 0 && all_digits(f) {
        Some(decimal_value(f))
    } else {
        None
    }
}

/// Reads `cs[lo..hi]`, one to three characters, as a field of ASCII digits.
pub fn field_value_range(cs: &Vec<char>, lo: usize, hi: usize) -> (r: Option<usize>)
    requires
        lo < hi <= cs.len(),
        hi - lo <= 3,
    ensures
        match r {
            Some(v) => field_value(cs@.subrange(lo as int, hi as int)) == Some(v as nat),
            None => field_value(cs@.subrange(lo as int, hi as int)) is None,
        },
        r matches Some(v) ==> v <= 999,
{
    let ghost f = cs@.subrange(lo as int, hi as int);
    let mut acc: usize = 0;
    let mut i: usize = lo;
    assert(f.take(0) =~= Seq::<char>::empty());
    while i < hi
        invariant
            lo <= i <= hi <= cs.len(),
            hi - lo <= 3,
            f == cs@.subrange(lo as int, hi as int),
            acc == decimal_value(f.take(i - lo)),
            i - lo == 0 ==> acc == 0,
            i - lo == 1 ==> acc <= 9,
            i - lo == 2 ==> acc <= 99,
            acc <= 999,
            forall|j: int| 0 <= j < i - lo ==> is_digit(#[trigger] f[j]),
        decreases hi - i,
    {
        let c = cs[i];
        if !('0' <= c && c <= '9') {
            assert(!is_digit(f[i - lo]));
            return None;
        }
        let d: usize = (c as u32 - '0' as u32) as usize;
        proof {
            let next = f.take(i - lo + 1);
            assert(next.drop_last() =~= f.take(i - lo));
            assert(next.last() == c);
        }
        acc = acc * 10 + d;
        i = i + 1;
    }
    assert(f.take(i - lo) =~= f);
    Some(acc)
}

/// A prefix of digits has no greater value than the whole.
pub proof fn lemma_decimal_value_prefix(ds: Seq<char>, k: int)
    requires
        0 <= k <= ds.len(),
    ensures
        decimal_value(ds.take(k)) <= decimal_value(ds),
    decreases ds.len(),
{
    if k < ds.len() {
        assert(ds.drop_last().take(k) =~= ds.take(k));
        lemma_decimal_value_prefix(ds.drop_last(), k);
    } else {
        assert(ds.take(k) =~= ds);
    }
}

/// Reads `cs[lo..hi]` as `str::parse::<usize>` does.
pub fn parse_usize_range(cs: &Vec<char>, lo: usize, hi: usize) -> (r: Option<usize>)
    requires
        lo <= hi <= cs.len(),
    ensures
        match r {
            Some(v) => parse_usize(cs@.subrange(lo as int, hi as int)) == Some(v as nat),
            None => parse_usize(cs@.subrange(lo as int, hi as int)) is None,
        },
{
    let ghost sub = cs@.subrange(lo as int, hi as int);
    let start: usize = if lo < hi && cs[lo] == '+' {
        lo + 1
    } else {
        lo
    };
    let ghost ds = cs@.subrange(start as int, hi as int);
    assert(ds =~= without_plus(sub));
    if start == hi {
        return None;
    }
    let mut acc: usize = 0;
    let mut i: usize = start;
    assert(ds.take(0) =~= Seq::<char>::empty());
    while i < hi
        invariant
            start < hi,
            start <= i <= hi <= cs.len(),
            ds == cs@.subrange(start as int, hi as int),
            sub == cs@.subrange(lo as int, hi as int),
            ds == without_plus(sub),
            acc == decimal_value(ds.take(i - start)),
            forall|j: int| 0 <= j < i - start ==> is_digit(#[trigger] ds[j]),
        decreases hi - i,
    {
        let c = cs[i];
        if !('0' <= c && c <= '9') {
            assert(!is_digit(ds[i - start]));
            return None;
        }
        let d: usize = (c as u32 - '0' as u32) as usize;
        let ghost next = ds.take(i - start + 1);
        proof {
            assert(next.drop_last() =~= ds.take(i - start));
            assert(next.last() == c);
            lemma_decimal_value_prefix(ds, i - start + 1);
        }
        let m = acc.checked_mul(10);
        match m {
            None => {
                return None;
            },
            Some(m) => {
                let a = m.checked_add(d);
                match a {
                    None => {
                        return None;
                    },
                    Some(a) => {
                        acc = a;
                    },
                }
            },
        }
        i = i + 1;
    }
    assert(ds.take(i - start) =~= ds);
    Some(acc)
}

/// What `char::is_numeric` says of `c`: whether `c` has one of Unicode's general categories
/// for numbers.
pub uninterp spec fn char_is_numeric(c: char) -> bool;

/// Whether `c` is numeric: for an ASCII character, whether it is a decimal digit (the
/// only ASCII characters in Unicode's number categories); for any other character, what
/// `char::is_numeric` says.
pub open spec fn numeric(c: char) -> bool {
    if (c as u32) < 0x80 {
        is_digit(c)
    } else {
        char_is_numeric(c)
    }
}

/// On ASCII characters the numeric test is the decimal-digit test: an ASCII character is
/// numeric exactly when it is one of `0` to `9`; on any other character it is what
/// `char::is_numeric` says.
pub proof fn lemma_numeric_ascii(c: char)
    ensures
        (c as u32) < 0x80 ==> (numeric(c) <==> '0' <= c && c <= '9'),
        (c as u32) >= 0x80 ==> numeric(c) == char_is_numeric(c),
{
}

/// `char::is_numeric`. Trusted: its result is `char_is_numeric(c)`, and, by the Unicode
/// number categories that its documentation names, an ASCII character is numeric exactly
/// when it is a decimal digit. Which other characters are numeric (the Unicode tables) is
/// left unsaid.
#[verifier::external_body]
pub(crate) fn is_numeric(c: char) -> (r: bool)
    ensures
        r == char_is_numeric(c),
        (c as u32) < 0x80 ==> r == is_digit(c),
{
    c.is_numeric()
}

/// Whether `c` is numeric, as `char::is_numeric` says.
pub(crate) fn numeric_char(c: char) -> (r: bool)
    ensures
        r == numeric(c),
        r == char_is_numeric(c),
        (c as u32) < 0x80 ==> (r <==> '0' <= c && c <= '9'),
{
    is_numeric(c)
}

/// The index of the first numeric character of `cs`, or `cs.len()` when there is none.
pub open spec fn numeric_index(cs: Seq<char>) -> nat
    decreases cs.len(),
{
    if cs.len() == 0 {
        0
    } else if numeric(cs[0]) {
        0
    } else {
        1 + numeric_index(cs.drop_first())
    }
}

/// `numeric_index` is the first position holding a numeric character.
pub proof fn lemma_numeric_index(cs: Seq<char>, i: int)
    requires
        0 <= i <= cs.len(),
        forall|j: int| 0 <= j < i ==> !numeric(#[trigger] cs[j]),
        i == cs.len() || numeric(cs[i]),
    ensures
        numeric_index(cs) == i,
    decreases i,
{
    if i > 0 {
        assert forall|j: int| 0 <= j < i - 1 implies !numeric(
            #[trigger] cs.drop_first()[j],
        ) by {
            assert(cs.drop_first()[j] == cs[j + 1]);
        }
        lemma_numeric_index(cs.drop_first(), i - 1);
    }
}

/// The position of the first numeric character of `cs`, or `cs.len()` when there is none.
pub fn find_numeric(cs: &Vec<char>) -> (r: usize)
    ensures
        r == numeric_index(cs@),
        r <= cs.len(),
        r < cs.len() ==> numeric(cs@[r as int]),
        forall|j: int| 0 <= j < r ==> !numeric(#[trigger] cs@[j]),
{
    let mut j: usize = 0;
    while j < cs.len() && !numeric_char(cs[j])
        invariant
            j <= cs.len(),
            forall|k: int| 0 <= k < j ==> !numeric(#[trigger] cs@[k]),
        decreases cs.len() - j,
    {
        j = j + 1;
    }
    proof {
        lemma_numeric_index(cs@, j as int);
    }
    j
}

/// The byte length of the rest of `cs` from index `i` is the width of `cs[i]` plus the
/// byte length from `i + 1`.
pub proof fn lemma_byte_len_skip(cs: Seq<char>, i: int)
    requires
        0 <= i < cs.len(),
    ensures
        byte_len(cs.skip(i)) == char_width(cs[i]) + byte_len(cs.skip(i + 1)),
        byte_len(cs.skip(i + 1)) > 0 ==> i + 1 < cs.len(),
{
    lemma_byte_len_first(cs.skip(i));
    assert(cs.skip(i).drop_first() =~= cs.skip(i + 1));
    if i + 1 == cs.len() {
        assert(cs.skip(i + 1) =~= Seq::<char>::empty());
    }
}

} // verus!
