use vstd::prelude::*;

use crate::db::concat_bytes;
use crate::db::lemma_views_of_push;
use crate::db::views_of;
use crate::otp_importer::OTPImporter;
use vstd::slice::slice_subrange;
use vstd::slice::slice_to_vec;

verus! {

/// ASCII code of the line feed byte.
pub const NEWLINE: u8 = 10;

/// ASCII code of the space byte.
pub const SPACE: u8 = 32;

/// Whether a byte is an ASCII hexadecimal digit, upper or lower case.
pub open spec fn is_hex_digit(b: u8) -> bool {
    (48 <= b <= 57) || (65 <= b <= 70) || (97 <= b <= 102)
}

/// The numeric value of one ASCII hexadecimal digit.
pub open spec fn hex_digit_value(b: u8) -> u8 {
    if 48 <= b <= 57 {
        (b - 48) as u8
    } else if 65 <= b <= 70 {
        (b - 55) as u8
    } else {
        (b - 87) as u8
    }
}

/// A hex token is one or two hexadecimal digits; anything else is a fatal
/// parse error.
pub open spec fn valid_hex_token(token: Seq<u8>) -> bool {
    &&& 1 <= token.len() <= 2
    &&& forall|i: int| 0 <= i < token.len() ==> is_hex_digit(#[trigger] token[i])
}

/// The byte a hex token denotes, most significant digit first.
pub open spec fn hex_token_value(token: Seq<u8>) -> u8 {
    if token.len() == 1 {
        hex_digit_value(token[0])
    } else {
        (hex_digit_value(token[0]) * 16 + hex_digit_value(token[1])) as u8
    }
}

/// Reports whether a token is a well-formed hex token.
pub fn is_valid_hex_token(token: &[u8]) -> (valid: bool)
    ensures
        valid == valid_hex_token(token@),
{
    if token.len() == 0 || token.len() > 2 {
        return false;
    }
    let mut i: usize = 0;
    while i < token.len()
        invariant
            i <= token@.len(),
            forall|j: int| 0 <= j < i ==> is_hex_digit(#[trigger] token@[j]),
        decreases token@.len() - i,
    {
        let b = token[i];
        let digit = (48 <= b && b <= 57) || (65 <= b && b <= 70) || (97 <= b && b <= 102);
        if !digit {
            return false;
        }
        i += 1;
    }
    true
}

/// Parses one hex token of one or two digits into the byte it denotes.
pub fn hex_text_to_u8(hex_text: &[u8]) -> (value: u8)
    requires
        valid_hex_token(hex_text@),
    ensures
        value == hex_token_value(hex_text@),
{
    if hex_text.len() == 1 {
        hex_digit_to_u8(hex_text[0])
    } else {
        hex_digit_to_u8(hex_text[0]) * 16 + hex_digit_to_u8(hex_text[1])
    }
}

/// Parses one hexadecimal digit, either case.
fn hex_digit_to_u8(b: u8) -> (value: u8)
    requires
        is_hex_digit(b),
    ensures
        value == hex_digit_value(b),
{
    if 48 <= b && b <= 57 {
        b - 48
    } else if 65 <= b && b <= 70 {
        b - 55
    } else {
        b - 87
    }
}

/// Whether a byte is ASCII whitespace, as line trimming removes it.
pub open spec fn is_ws(b: u8) -> bool {
    b == 32 || b == 9 || b == 10 || b == 13 || b == 11 || b == 12
}

/// The index of the first occurrence of `b` in `s`, or a negative value when
/// `s` does not contain it.
pub open spec fn find_byte(s: Seq<u8>, b: u8) -> int
    decreases s.len(),
{
    if s.len() == 0 {
        -1
    } else if s[0] == b {
        0
    } else if find_byte(s.drop_first(), b) < 0 {
        -1
    } else {
        find_byte(s.drop_first(), b) + 1
    }
}

pub proof fn lemma_find_byte_spec(s: Seq<u8>, b: u8)
    ensures
        find_byte(s, b) >= 0 ==> 0 <= find_byte(s, b) < s.len() && s[find_byte(s, b)] == b
            && forall|t: int| 0 <= t < find_byte(s, b) ==> #[trigger] s[t] != b,
        find_byte(s, b) < 0 ==> forall|t: int| 0 <= t < s.len() ==> #[trigger] s[t] != b,
    decreases s.len(),
{
    if s.len() == 0 {
    } else {
        let d = s.drop_first();
        lemma_find_byte_spec(d, b);
        if s[0] == b {
        } else if find_byte(d, b) < 0 {
            assert forall|t: int| 0 <= t < s.len() implies #[trigger] s[t] != b by {
                if t > 0 {
                    assert(d[t - 1] == s[t]);
                    assert(d[t - 1] != b);
                }
            }
        } else {
            let f = find_byte(d, b) + 1;
            assert(s[f] == d[f - 1]);
            assert forall|t: int| 0 <= t < f implies #[trigger] s[t] != b by {
                if t > 0 {
                    assert(d[t - 1] == s[t]);
                    assert(d[t - 1] != b);
                }
            }
        }
    }
}

/// A line with its one trailing carriage return removed, when it has one.
pub open spec fn strip_cr(l: Seq<u8>) -> Seq<u8> {
    if l.len() > 0 && l.last() == 13 {
        l.drop_last()
    } else {
        l
    }
}

/// The lines of a text: split at line feeds, each line's trailing carriage
/// return removed, and a final line ending optional.
pub open spec fn spec_lines(s: Seq<u8>) -> Seq<Seq<u8>>
    decreases s.len(),
    via spec_lines_decreases
{
    if s.len() == 0 {
        Seq::empty()
    } else if find_byte(s, NEWLINE) < 0 {
        seq![s]
    } else {
        seq![strip_cr(s.take(find_byte(s, NEWLINE)))] + spec_lines(s.skip(find_byte(s, NEWLINE) + 1))
    }
}

#[via_fn]
proof fn spec_lines_decreases(s: Seq<u8>) {
    lemma_find_byte_spec(s, NEWLINE);
}

/// A sequence with its leading whitespace removed.
pub open spec fn trim_front(s: Seq<u8>) -> Seq<u8>
    decreases s.len(),
{
    if s.len() > 0 && is_ws(s[0]) {
        trim_front(s.drop_first())
    } else {
        s
    }
}

/// A sequence with its trailing whitespace removed.
pub open spec fn trim_back(s: Seq<u8>) -> Seq<u8>
    decreases s.len(),
{
    if s.len() > 0 && is_ws(s.last()) {
        trim_back(s.drop_last())
    } else {
        s
    }
}

/// A sequence with whitespace removed from both ends.
pub open spec fn spec_trim(s: Seq<u8>) -> Seq<u8> {
    trim_back(trim_front(s))
}

/// A line split at every single space; adjacent spaces yield empty pieces,
/// and an empty line yields one empty piece.
pub open spec fn split_spaces(s: Seq<u8>) -> Seq<Seq<u8>>
    decreases s.len(),
    via split_spaces_decreases
{
    if find_byte(s, SPACE) < 0 {
        seq![s]
    } else {
        seq![s.take(find_byte(s, SPACE))] + split_spaces(s.skip(find_byte(s, SPACE) + 1))
    }
}

#[via_fn]
proof fn split_spaces_decreases(s: Seq<u8>) {
    lemma_find_byte_spec(s, SPACE);
}

/// The tokens of one line: the line is trimmed, then split on single spaces.
pub open spec fn line_tokens(l: Seq<u8>) -> Seq<Seq<u8>> {
    split_spaces(spec_trim(l))
}

/// Every token of the line is a well-formed hex token.
pub open spec fn line_valid(l: Seq<u8>) -> bool {
    forall|j: int| 0 <= j < line_tokens(l).len() ==> valid_hex_token(#[trigger] line_tokens(l)[j])
}

/// The bytes one line denotes, token by token.
pub open spec fn line_values(l: Seq<u8>) -> Seq<u8> {
    line_tokens(l).map_values(|t: Seq<u8>| hex_token_value(t))
}

/// Every token of every line is a well-formed hex token; anything else is a
/// fatal parse error.
pub open spec fn valid_text(s: Seq<u8>) -> bool {
    forall|i: int| 0 <= i < spec_lines(s).len() ==> line_valid(#[trigger] spec_lines(s)[i])
}

/// The bytes a whole text denotes: each line's bytes, line after line.
pub open spec fn parsed_bytes(s: Seq<u8>) -> Seq<u8> {
    concat_bytes(spec_lines(s).map_values(|l: Seq<u8>| line_values(l)))
}

/// Finds the first occurrence of `b` in `s` at or after `from`.
fn find_byte_from(s: &[u8], from: usize, b: u8) -> (r: Option<usize>)
    requires
        from <= s@.len(),
    ensures
        r matches Some(i) ==> from <= i < s@.len() && s@[i as int] == b && forall|t: int|
            from <= t < i ==> #[trigger] s@[t] != b,
        r is None ==> forall|t: int| from <= t < s@.len() ==> #[trigger] s@[t] != b,
{
    let mut i = from;
    while i < s.len()
        invariant
            from <= i <= s@.len(),
            forall|t: int| from <= t < i ==> #[trigger] s@[t] != b,
        decreases s@.len() - i,
    {
        if s[i] == b {
            return Some(i);
        }
        i += 1;
    }
    None
}

/// The first occurrence of `b` at or after `from` in `s` pins down
/// `find_byte` on the suffix starting at `from`.
proof fn lemma_find_byte_at(s: Seq<u8>, from: int, b: u8, i: int)
    requires
        0 <= from <= i < s.len(),
        s[i] == b,
        forall|t: int| from <= t < i ==> #[trigger] s[t] != b,
    ensures
        find_byte(s.skip(from), b) == i - from,
{
    let u = s.skip(from);
    lemma_find_byte_spec(u, b);
    assert(forall|t: int| 0 <= t < u.len() ==> #[trigger] u[t] == s[t + from]);
    assert(u[i - from] == b);
    let f = find_byte(u, b);
    if f < 0 {
        assert(u[i - from] != b);
        assert(false);
    }
    if f < i - from {
        assert(s[f + from] != b);
        assert(u[f] == b);
        assert(false);
    }
    if f > i - from {
        assert(u[i - from] != b);
        assert(false);
    }
}

/// No occurrence of `b` at or after `from` means `find_byte` fails on the
/// suffix starting at `from`.
proof fn lemma_find_byte_none(s: Seq<u8>, from: int, b: u8)
    requires
        0 <= from <= s.len(),
        forall|t: int| from <= t < s.len() ==> #[trigger] s[t] != b,
    ensures
        find_byte(s.skip(from), b) < 0,
{
    let u = s.skip(from);
    lemma_find_byte_spec(u, b);
    assert(forall|t: int| 0 <= t < u.len() ==> #[trigger] u[t] == s[t + from]);
    let f = find_byte(u, b);
    if f >= 0 {
        assert(u[f] == b);
        assert(s[f + from] != b);
        assert(false);
    }
}

/// Splits a text's bytes into its lines.
fn split_lines(text: &[u8]) -> (lines: Vec<Vec<u8>>)
    ensures
        views_of(lines@) == spec_lines(text@),
{
    let mut lines: Vec<Vec<u8>> = Vec::new();
    let mut pos: usize = 0;
    proof {
        assert(text@.skip(0) =~= text@);
        assert(views_of(lines@) + spec_lines(text@) =~= spec_lines(text@));
    }
    while pos < text.len()
        invariant
            pos <= text@.len(),
            spec_lines(text@) == views_of(lines@) + spec_lines(text@.skip(pos as int)),
        decreases text@.len() - pos,
    {
        let ghost u = text@.skip(pos as int);
        let line_end: usize;
        let next_pos: usize;
        let stripped_end: usize;
        match find_byte_from(text, pos, NEWLINE) {
            Some(i) => {
                proof {
                    lemma_find_byte_at(text@, pos as int, NEWLINE, i as int);
                }
                line_end = i;
                next_pos = i + 1;
                stripped_end = if i > pos && text[i - 1] == 13 {
                    i - 1
                } else {
                    i
                };
            },
            None => {
                proof {
                    lemma_find_byte_none(text@, pos as int, NEWLINE);
                }
                line_end = text.len();
                next_pos = text.len();
                stripped_end = text.len();
            },
        }
        let line = slice_to_vec(slice_subrange(text, pos, stripped_end));
        let ghost lines0 = lines@;
        lines.push(line);
        proof {
            lemma_views_of_push(lines0, line);
            if line_end < text@.len() {
                assert(u.take(line_end - pos) =~= text@.subrange(pos as int, line_end as int));
                assert(strip_cr(u.take(line_end - pos)) =~= text@.subrange(
                    pos as int,
                    stripped_end as int,
                ));
                assert(u.skip(line_end - pos + 1) =~= text@.skip(next_pos as int));
                assert(spec_lines(u) == seq![strip_cr(u.take(find_byte(u, NEWLINE)))]
                    + spec_lines(u.skip(find_byte(u, NEWLINE) + 1)));
                assert(views_of(lines@) + spec_lines(text@.skip(next_pos as int)) =~= (views_of(
                    lines0,
                ) + spec_lines(u)));
            } else {
                assert(find_byte(u, NEWLINE) < 0);
                assert(u.len() > 0);
                assert(spec_lines(u) == seq![u]);
                assert(line@ =~= u);
                assert(text@.skip(next_pos as int).len() == 0);
                assert(spec_lines(text@.skip(next_pos as int)) =~= Seq::<Seq<u8>>::empty());
                assert(views_of(lines@) + spec_lines(text@.skip(next_pos as int)) =~= (views_of(
                    lines0,
                ) + spec_lines(u)));
            }
        }
        pos = next_pos;
    }
    proof {
        assert(spec_lines(text@.skip(pos as int)) =~= Seq::<Seq<u8>>::empty());
        assert(views_of(lines@) =~= spec_lines(text@));
    }
    lines
}

/// Skipping a fully-whitespace prefix is exactly what front trimming does.
proof fn lemma_trim_front_skip(s: Seq<u8>, k: int)
    requires
        0 <= k <= s.len(),
        forall|t: int| 0 <= t < k ==> is_ws(#[trigger] s[t]),
        k == s.len() || !is_ws(s[k]),
    ensures
        trim_front(s) == s.skip(k),
    decreases k,
{
    if k == 0 {
        assert(s.skip(0) =~= s);
    } else {
        let d = s.drop_first();
        assert(is_ws(s[0]));
        assert forall|t: int| 0 <= t < k - 1 implies is_ws(#[trigger] d[t]) by {
            assert(d[t] == s[t + 1]);
        }
        assert(k - 1 == d.len() || !is_ws(d[k - 1]));
        lemma_trim_front_skip(d, k - 1);
        assert(d.skip(k - 1) =~= s.skip(k));
    }
}

/// Taking everything up to the last non-whitespace byte is exactly what back
/// trimming does.
proof fn lemma_trim_back_take(s: Seq<u8>, m: int)
    requires
        0 <= m <= s.len(),
        forall|t: int| m <= t < s.len() ==> is_ws(#[trigger] s[t]),
        m == 0 || !is_ws(s[m - 1]),
    ensures
        trim_back(s) == s.take(m),
    decreases s.len(),
{
    if m == s.len() {
        assert(s.take(m) =~= s);
    } else {
        let d = s.drop_last();
        assert(is_ws(s.last()));
        assert forall|t: int| m <= t < d.len() implies is_ws(#[trigger] d[t]) by {
            assert(d[t] == s[t]);
        }
        lemma_trim_back_take(d, m);
        assert(d.take(m) =~= s.take(m));
    }
}

/// Reports whether a byte is ASCII whitespace.
fn is_ws_byte(b: u8) -> (r: bool)
    ensures
        r == is_ws(b),
{
    b == 32 || b == 9 || b == 10 || b == 13 || b == 11 || b == 12
}

/// Removes leading and trailing whitespace from a line's bytes.
fn trim_ascii(line: &[u8]) -> (trimmed: Vec<u8>)
    ensures
        trimmed@ == spec_trim(line@),
{
    let mut lo: usize = 0;
    while lo < line.len() && is_ws_byte(line[lo])
        invariant
            lo <= line@.len(),
            forall|t: int| 0 <= t < lo ==> is_ws(#[trigger] line@[t]),
        decreases line@.len() - lo,
    {
        lo += 1;
    }
    if lo == line.len() {
        proof {
            lemma_trim_front_skip(line@, lo as int);
            assert(line@.skip(lo as int) =~= Seq::<u8>::empty());
            assert(trim_back(Seq::<u8>::empty()) == Seq::<u8>::empty());
        }
        let empty: Vec<u8> = Vec::new();
        return empty;
    }
    let mut hi: usize = line.len();
    while hi > lo && is_ws_byte(line[hi - 1])
        invariant
            lo <= hi <= line@.len(),
            forall|t: int| hi <= t < line@.len() ==> is_ws(#[trigger] line@[t]),
        decreases hi,
    {
        hi -= 1;
    }
    proof {
        lemma_trim_front_skip(line@, lo as int);
        let u = line@.skip(lo as int);
        assert forall|t: int| hi - lo <= t < u.len() implies is_ws(#[trigger] u[t]) by {
            assert(u[t] == line@[t + lo]);
        }
        if hi > lo {
            assert(!is_ws(u[hi - lo - 1]));
        }
        lemma_trim_back_take(u, hi - lo);
        assert(u.take(hi - lo) =~= line@.subrange(lo as int, hi as int));
    }
    slice_to_vec(slice_subrange(line, lo, hi))
}

/// Splits a trimmed line at every single space.
fn split_on_spaces(line: &[u8]) -> (tokens: Vec<Vec<u8>>)
    ensures
        views_of(tokens@) == split_spaces(line@),
{
    let mut tokens: Vec<Vec<u8>> = Vec::new();
    let mut pos: usize = 0;
    let mut done = false;
    let n = line.len();
    proof {
        assert(line@.skip(0) =~= line@);
        assert(views_of(tokens@) + split_spaces(line@) =~= split_spaces(line@));
    }
    while !done
        invariant
            n == line@.len(),
            pos <= line@.len(),
            !done ==> split_spaces(line@) == views_of(tokens@) + split_spaces(
                line@.skip(pos as int),
            ),
            done ==> views_of(tokens@) == split_spaces(line@),
        decreases line@.len() - pos + (if done {
            0int
        } else {
            1int
        }),
    {
        let ghost u = line@.skip(pos as int);
        let ghost tokens0 = tokens@;
        match find_byte_from(line, pos, SPACE) {
            Some(i) => {
                proof {
                    lemma_find_byte_at(line@, pos as int, SPACE, i as int);
                }
                let piece = slice_to_vec(slice_subrange(line, pos, i));
                let ghost pv = piece@;
                tokens.push(piece);
                proof {
                    lemma_views_of_push(tokens0, tokens@.last());
                    assert(u.take(i - pos) =~= line@.subrange(pos as int, i as int));
                    assert(u.skip(i - pos + 1) =~= line@.skip(i + 1));
                    assert(split_spaces(u) == seq![u.take(find_byte(u, SPACE))] + split_spaces(
                        u.skip(find_byte(u, SPACE) + 1),
                    ));
                    assert(views_of(tokens@) + split_spaces(line@.skip(i + 1)) =~= views_of(
                        tokens0,
                    ) + split_spaces(u));
                }
                pos = i + 1;
            },
            None => {
                proof {
                    lemma_find_byte_none(line@, pos as int, SPACE);
                }
                let piece = slice_to_vec(slice_subrange(line, pos, line.len()));
                tokens.push(piece);
                done = true;
                proof {
                    lemma_views_of_push(tokens0, tokens@.last());
                    assert(tokens@.last()@ =~= u);
                    assert(split_spaces(u) == seq![u]);
                    assert(views_of(tokens@) =~= views_of(tokens0) + split_spaces(u));
                }
            },
        }
    }
    tokens
}

/// Parses a whole hex text into the bytes it denotes: the text is split into
/// lines, each line trimmed and split on single spaces, and every token read
/// as one byte. A single malformed token rejects the whole text.
pub fn parse_text(text: &[u8]) -> (result: Option<Vec<u8>>)
    ensures
        result is Some <==> valid_text(text@),
        result matches Some(bytes) ==> bytes@ == parsed_bytes(text@),
{
    let lines = split_lines(text);
    let ghost lseq = spec_lines(text@);
    let ghost lvals = lseq.map_values(|l: Seq<u8>| line_values(l));
    let mut result: Vec<u8> = Vec::new();
    let mut li: usize = 0;
    while li < lines.len()
        invariant
            li <= lines@.len(),
            views_of(lines@) == lseq,
            lseq == spec_lines(text@),
            lvals == lseq.map_values(|l: Seq<u8>| line_values(l)),
            forall|i: int| 0 <= i < li ==> line_valid(#[trigger] lseq[i]),
            result@ == concat_bytes(lvals.take(li as int)),
        decreases lines@.len() - li,
    {
        let line = &lines[li];
        proof {
            assert(line@ == lseq[li as int]);
        }
        let trimmed = trim_ascii(line.as_slice());
        let tokens = split_on_spaces(trimmed.as_slice());
        proof {
            assert(views_of(tokens@) == line_tokens(lseq[li as int]));
        }
        let ghost lval = line_values(lseq[li as int]);
        let mut ti: usize = 0;
        while ti < tokens.len()
            invariant
                ti <= tokens@.len(),
                li < lines@.len(),
                views_of(lines@) == lseq,
                lseq == spec_lines(text@),
                views_of(tokens@) == line_tokens(lseq[li as int]),
                lval == line_values(lseq[li as int]),
                lvals == lseq.map_values(|l: Seq<u8>| line_values(l)),
                forall|j: int| 0 <= j < ti ==> valid_hex_token(#[trigger] views_of(tokens@)[j]),
                result@ == concat_bytes(lvals.take(li as int)) + lval.take(ti as int),
            decreases tokens@.len() - ti,
        {
            let tok = &tokens[ti];
            proof {
                assert(tok@ == views_of(tokens@)[ti as int]);
            }
            if !is_valid_hex_token(tok.as_slice()) {
                proof {
                    assert(lseq.len() == lines@.len());
                    assert(0 <= li < spec_lines(text@).len());
                    assert(!valid_hex_token(line_tokens(lseq[li as int])[ti as int]));
                    assert(!line_valid(lseq[li as int]));
                    assert(!valid_text(text@));
                }
                return None;
            }
            let value = hex_text_to_u8(tok.as_slice());
            result.push(value);
            proof {
                assert(lval[ti as int] == hex_token_value(views_of(tokens@)[ti as int]));
                assert(lval.take(ti + 1) =~= lval.take(ti as int).push(lval[ti as int]));
                assert(result@ =~= concat_bytes(lvals.take(li as int)) + lval.take(ti + 1));
            }
            ti += 1;
        }
        proof {
            assert(line_valid(lseq[li as int])) by {
                assert forall|j: int|
                    0 <= j < line_tokens(lseq[li as int]).len() implies valid_hex_token(
                    #[trigger] line_tokens(lseq[li as int])[j],
                ) by {
                    assert(valid_hex_token(views_of(tokens@)[j]));
                }
            }
            assert(lval.take(tokens@.len() as int) =~= lval);
            assert(lvals.take(li + 1).drop_last() =~= lvals.take(li as int));
            assert(lvals.take(li + 1).last() == lvals[li as int]);
            assert(lvals[li as int] == lval);
            assert(concat_bytes(lvals.take(li + 1)) == concat_bytes(lvals.take(li as int))
                + lval);
            assert(result@ =~= concat_bytes(lvals.take(li + 1)));
        }
        li += 1;
    }
    proof {
        assert(lvals.take(lines@.len() as int) =~= lvals);
    }
    Some(result)
}

/// Entropy read from a whitespace-delimited hexadecimal text file. Each line
/// holds space-separated tokens of one or two hex digits; one byte per token.
pub struct TextFileHexImporter {
    data: Vec<u8>,
}

impl TextFileHexImporter {
    /// Builds the importer by parsing a hex text file's bytes; a malformed
    /// token is a fatal parse error and rejects the whole import.
    pub fn new(contents: &[u8]) -> (importer: Option<Self>)
        ensures
            importer is Some <==> valid_text(contents@),
            importer matches Some(im) ==> im.data_view() == parsed_bytes(contents@),
    {
        match parse_text(contents) {
            Some(data) => Some(TextFileHexImporter { data }),
            None => None,
        }
    }
}

impl OTPImporter for TextFileHexImporter {
    closed spec fn data_view(&self) -> Seq<u8> {
        self.data@
    }

    fn entropy_data(&self) -> (data: &Vec<u8>) {
        &self.data
    }
}

} // verus!
