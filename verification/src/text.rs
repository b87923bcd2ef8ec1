//! Text as encoded bytes: cutting a text at character boundaries, and
//! splitting it into lines.

use vstd::prelude::*;
use vstd::string::*;
use vstd::utf8::*;

verus! {

/// The text of every string of a list.
pub open spec fn texts(list: Seq<String>) -> Seq<Seq<char>> {
    Seq::new(list.len(), |i: int| list[i]@)
}

/// The pieces between the line feeds of a text: one more than there are
/// line feeds, the last being what follows the last line feed.
pub open spec fn pieces(text: Seq<char>) -> Seq<Seq<char>>
    decreases text.len(),
{
    if text.len() == 0 {
        seq![Seq::empty()]
    } else {
        let before = pieces(text.drop_last());
        if text.last() == '\n' {
            before.push(Seq::empty())
        } else {
            before.update(before.len() - 1, before.last().push(text.last()))
        }
    }
}

/// A line without the carriage return at its end, if it has one.
pub open spec fn without_return(line: Seq<char>) -> Seq<char> {
    if line.len() > 0 && line.last() == '\r' {
        line.drop_last()
    } else {
        line
    }
}

/// All pieces but the last, each without the carriage return at its end:
/// the lines that a line feed ends.
pub open spec fn ended(all: Seq<Seq<char>>) -> Seq<Seq<char>> {
    Seq::new((all.len() - 1) as nat, |i: int| without_return(all[i]))
}

/// The lines of a text. A line ends with a line feed, or with a carriage
/// return and a line feed; neither belongs to the line. What follows the
/// last line feed is a line too unless it is empty, and keeps a carriage
/// return at its end.
pub open spec fn lines_of(text: Seq<char>) -> Seq<Seq<char>> {
    let all = pieces(text);
    if all.last().len() == 0 {
        ended(all)
    } else {
        ended(all).push(all.last())
    }
}

/// The character `c` does not occur in the text.
pub open spec fn lacks(text: Seq<char>, c: char) -> bool {
    forall|i: int| 0 <= i < text.len() ==> text[i] != c
}

/// The text is empty or ends with a line feed: it holds whole lines only.
pub open spec fn complete(text: Seq<char>) -> bool {
    text.len() == 0 || text.last() == '\n'
}

/// A text has at least one piece, and the last piece of a text of whole
/// lines is empty.
pub proof fn lemma_pieces_last(text: Seq<char>)
    ensures
        pieces(text).len() >= 1,
        complete(text) ==> pieces(text).last().len() == 0,
    decreases text.len(),
{
    if text.len() > 0 {
        lemma_pieces_last(text.drop_last());
    }
}

/// Text without a line feed, added at the end, goes to the last piece.
pub proof fn lemma_pieces_extend(text: Seq<char>, more: Seq<char>)
    requires
        lacks(more, '\n'),
    ensures
        pieces(text + more) == pieces(text).update(
            pieces(text).len() - 1,
            pieces(text).last() + more,
        ),
    decreases more.len(),
{
    lemma_pieces_last(text);
    let all = pieces(text);
    if more.len() == 0 {
        assert(text + more =~= text);
        assert(all.last() + more =~= all.last());
        assert(all.update(all.len() - 1, all.last()) =~= all);
    } else {
        let shorter = more.drop_last();
        lemma_pieces_extend(text, shorter);
        assert((text + more).drop_last() =~= text + shorter);
        assert((all.last() + shorter).push(more.last()) =~= all.last() + more);
        let before = pieces(text + shorter);
        assert(before.update(before.len() - 1, before.last().push(more.last())) =~= all.update(
            all.len() - 1,
            all.last() + more,
        ));
    }
}

/// After whole lines, text without a line feed is one more line, unless it
/// is empty.
pub proof fn lemma_lines_with_rest(done: Seq<char>, rest: Seq<char>)
    requires
        complete(done),
        lacks(rest, '\n'),
    ensures
        lines_of(done + rest) == if rest.len() == 0 {
            lines_of(done)
        } else {
            lines_of(done).push(rest)
        },
{
    lemma_pieces_last(done);
    lemma_pieces_extend(done, rest);
    let all = pieces(done);
    assert(all.last() + rest =~= rest);
    assert(ended(pieces(done + rest)) =~= ended(all));
}

/// After whole lines, text without a line feed and then a line feed is one
/// more whole line: that text, without a carriage return at its end.
pub proof fn lemma_lines_with_line(done: Seq<char>, line: Seq<char>)
    requires
        complete(done),
        lacks(line, '\n'),
    ensures
        lines_of(done + line + seq!['\n']) == lines_of(done).push(without_return(line)),
        complete(done + line + seq!['\n']),
{
    lemma_pieces_last(done);
    lemma_pieces_extend(done, line);
    let all = pieces(done);
    let whole = done + line + seq!['\n'];
    assert(all.last() + line =~= line);
    assert(whole.drop_last() =~= done + line);
    assert(pieces(whole) == pieces(done + line).push(Seq::empty()));
    assert(ended(pieces(whole)) =~= ended(all).push(without_return(line)));
}

/// The byte that encodes a line feed.
pub const LINE_FEED: u8 = 0x0A;

/// The byte that encodes a carriage return.
pub const CARRIAGE_RETURN: u8 = 0x0D;

/// The byte `byte` does not occur among the bytes.
pub open spec fn lacks_byte(bytes: Seq<u8>, byte: u8) -> bool {
    forall|j: int| 0 <= j < bytes.len() ==> bytes[j] != byte
}

/// `byte` is the encoding of the character `c`, which is one of the first
/// 128.
pub open spec fn encodes(byte: u8, c: char) -> bool {
    byte <= 0x7f && c as u32 == byte as u32
}

/// The encoding of a text is the encoding of its parts, one after the other.
pub proof fn lemma_encode_concat(first: Seq<char>, second: Seq<char>)
    ensures
        encode_utf8(first + second) == encode_utf8(first) + encode_utf8(second),
    decreases first.len(),
{
    if first.len() == 0 {
        assert(first + second =~= second);
        assert(encode_utf8(first) + encode_utf8(second) =~= encode_utf8(second));
    } else {
        lemma_encode_concat(first.drop_first(), second);
        assert((first + second).drop_first() =~= first.drop_first() + second);
        assert(encode_utf8(first + second) =~= encode_utf8(first) + encode_utf8(second));
    }
}

/// One of the first 128 characters is encoded as one byte, its number.
pub proof fn lemma_encode_single(byte: u8, c: char)
    requires
        encodes(byte, c),
    ensures
        encode_utf8(seq![c]) == seq![byte],
        decode_utf8(seq![byte]) == seq![c],
{
    let scalar = c as u32;
    assert(scalar & 0x7F == scalar) by (bit_vector)
        requires
            scalar <= 0x7f,
    ;
    assert(seq![c].drop_first() =~= Seq::<char>::empty());
    reveal_with_fuel(encode_utf8, 2);
    assert(encode_utf8(seq![c]) =~= seq![byte]);
    encode_utf8_decode_utf8(seq![c]);
}

/// Where the character occurs in a text, its byte occurs in the encoding of
/// the text; where it is the last character, its byte is the last byte.
pub proof fn lemma_byte_of_char(text: Seq<char>, at: int, byte: u8, c: char)
    requires
        encodes(byte, c),
        0 <= at < text.len(),
        text[at] == c,
    ensures
        !lacks_byte(encode_utf8(text), byte),
        encode_utf8(text).len() > 0,
        at == text.len() - 1 ==> encode_utf8(text).last() == byte,
{
    let before = text.subrange(0, at);
    let after = text.subrange(at + 1, text.len() as int);
    assert(text =~= before + seq![c] + after);
    lemma_encode_concat(before + seq![c], after);
    lemma_encode_concat(before, seq![c]);
    lemma_encode_single(byte, c);
    let bytes = encode_utf8(text);
    let place = encode_utf8(before).len() as int;
    assert(bytes[place] == byte);
    if at == text.len() - 1 {
        assert(after =~= Seq::<char>::empty());
    }
}

/// Bytes in which the byte of a character does not occur decode to a text
/// in which the character does not occur.
pub proof fn lemma_lacks_from_bytes(bytes: Seq<u8>, byte: u8, c: char)
    requires
        valid_utf8(bytes),
        encodes(byte, c),
        lacks_byte(bytes, byte),
    ensures
        lacks(decode_utf8(bytes), c),
{
    let text = decode_utf8(bytes);
    decode_utf8_encode_utf8(bytes);
    assert forall|k: int| 0 <= k < text.len() implies text[k] != c by {
        if text[k] == c {
            lemma_byte_of_char(text, k, byte, c);
        }
    }
}

/// Bytes that do not end in the byte of a character decode to a text that
/// does not end in the character.
pub proof fn lemma_last_from_bytes(bytes: Seq<u8>, byte: u8, c: char)
    requires
        valid_utf8(bytes),
        encodes(byte, c),
        bytes.len() == 0 || bytes.last() != byte,
    ensures
        decode_utf8(bytes).len() == 0 || decode_utf8(bytes).last() != c,
{
    let text = decode_utf8(bytes);
    decode_utf8_encode_utf8(bytes);
    if text.len() > 0 && text.last() == c {
        lemma_byte_of_char(text, text.len() - 1, byte, c);
    }
}

/// A byte below 128 stands for a character of its own: it begins at a
/// character boundary, and the next character begins right after it.
pub proof fn lemma_boundaries_of_single(bytes: Seq<u8>, at: int)
    requires
        valid_utf8(bytes),
        0 <= at < bytes.len(),
        bytes[at] <= 0x7f,
    ensures
        is_char_boundary(bytes, at),
        is_char_boundary(bytes, at + 1),
    decreases bytes.len(),
{
    is_char_boundary_iff_not_is_continuation_byte(bytes, at);
    reveal_with_fuel(is_char_boundary, 2);
    if at > 0 {
        let first = length_of_first_scalar(bytes);
        let rest = pop_first_scalar(bytes);
        assert(rest[at - first] == bytes[at]);
        lemma_boundaries_of_single(rest, at - first);
    }
}

/// The bytes between two character boundaries are a text of their own, and
/// the whole text is what comes before them, they, and what comes after.
pub proof fn lemma_decode_between(bytes: Seq<u8>, from: int, to: int)
    requires
        valid_utf8(bytes),
        0 <= from <= to <= bytes.len(),
        is_char_boundary(bytes, from),
        is_char_boundary(bytes, to),
    ensures
        valid_utf8(bytes.subrange(0, from)),
        valid_utf8(bytes.subrange(from, to)),
        valid_utf8(bytes.subrange(0, to)),
        valid_utf8(bytes.subrange(to, bytes.len() as int)),
        decode_utf8(bytes.subrange(0, to)) == decode_utf8(bytes.subrange(0, from)) + decode_utf8(
            bytes.subrange(from, to),
        ),
        decode_utf8(bytes) == decode_utf8(bytes.subrange(0, to)) + decode_utf8(
            bytes.subrange(to, bytes.len() as int),
        ),
{
    let upto = bytes.subrange(0, to);
    valid_utf8_split(bytes, to);
    decode_utf8_split(bytes, to);
    if from == to {
        is_char_boundary_start_end_of_seq(upto);
    } else {
        is_char_boundary_iff_not_is_continuation_byte(bytes, from);
        assert(upto[from] == bytes[from]);
        is_char_boundary_iff_not_is_continuation_byte(upto, from);
    }
    valid_utf8_split(upto, from);
    decode_utf8_split(upto, from);
    assert(upto.subrange(0, from) =~= bytes.subrange(0, from));
    assert(upto.subrange(from, upto.len() as int) =~= bytes.subrange(from, to));
}

/// The part of a text between two character boundaries, given in bytes.
pub(crate) fn cut<'a>(text: &'a str, from: usize, to: usize) -> (part: &'a str)
    requires
        from <= to <= text.spec_bytes().len(),
        is_char_boundary(text.spec_bytes(), from as int),
        is_char_boundary(text.spec_bytes(), to as int),
    ensures
        part@ == decode_utf8(text.spec_bytes().subrange(from as int, to as int)),
{
    let ghost bytes = text.spec_bytes();
    proof {
        encode_utf8_valid_utf8(text@);
        lemma_decode_between(bytes, from as int, to as int);
        if from < to {
            is_char_boundary_iff_not_is_continuation_byte(bytes, from as int);
            is_char_boundary_iff_not_is_continuation_byte(bytes.subrange(0, to as int), from as int);
        } else {
            is_char_boundary_start_end_of_seq(bytes.subrange(0, to as int));
        }
    }
    let (head, _) = text.split_at(to);
    let (_, part) = head.split_at(from);
    proof {
        assert(part.spec_bytes() =~= bytes.subrange(from as int, to as int));
        encode_utf8_decode_utf8(part@);
    }
    part
}

/// The lines of a text: what lies between its line feeds, each line
/// without a carriage return before the line feed, and without an empty
/// line after the last line feed.
pub fn split_lines(text: &str) -> (lines: Vec<String>)
    ensures
        texts(lines@) == lines_of(text@),
{
    let bytes = text.as_bytes();
    let n: usize = bytes.len();
    let ghost all = text.spec_bytes();
    proof {
        encode_utf8_valid_utf8(text@);
        encode_utf8_decode_utf8(text@);
        is_char_boundary_start_end_of_seq(all);
        assert(all.subrange(0, 0) =~= Seq::<u8>::empty());
    }
    let mut lines: Vec<String> = Vec::new();
    let mut start: usize = 0;
    let mut i: usize = 0;
    while i < n
        invariant
            start <= i <= n,
            n == all.len(),
            bytes@ == all,
            all == text.spec_bytes(),
            valid_utf8(all),
            is_char_boundary(all, start as int),
            lacks_byte(all.subrange(start as int, i as int), LINE_FEED),
            texts(lines@) == lines_of(decode_utf8(all.subrange(0, start as int))),
            complete(decode_utf8(all.subrange(0, start as int))),
        decreases n - i,
    {
        if bytes[i] == LINE_FEED {
            let end: usize = if i > start && bytes[i - 1] == CARRIAGE_RETURN {
                i - 1
            } else {
                i
            };
            let ghost done = decode_utf8(all.subrange(0, start as int));
            let ghost piece = all.subrange(start as int, i as int);
            let ghost line = decode_utf8(piece);
            proof {
                lemma_boundaries_of_single(all, i as int);
                lemma_decode_between(all, start as int, i as int);
                lemma_decode_between(all, i as int, i + 1);
                lemma_encode_single(LINE_FEED, '\n');
                assert(all.subrange(i as int, i + 1) =~= seq![LINE_FEED]);
                lemma_lacks_from_bytes(piece, LINE_FEED, '\n');
                lemma_lines_with_line(done, line);
                assert(decode_utf8(all.subrange(0, i + 1)) =~= done + line + seq!['\n']);
                if end < i {
                    let last = piece.len() - 1;
                    lemma_boundaries_of_single(all, i - 1);
                    lemma_boundaries_of_single(piece, last);
                    lemma_decode_between(piece, last, last + 1);
                    lemma_encode_single(CARRIAGE_RETURN, '\r');
                    assert(piece.subrange(last, last + 1) =~= seq![CARRIAGE_RETURN]);
                    assert(piece.subrange(0, last) =~= all.subrange(start as int, end as int));
                    assert(piece.subrange(0, last + 1) =~= piece);
                    assert(line == decode_utf8(all.subrange(start as int, end as int)).push('\r'));
                    assert(without_return(line) =~= decode_utf8(
                        all.subrange(start as int, end as int),
                    ));
                } else {
                    lemma_last_from_bytes(piece, CARRIAGE_RETURN, '\r');
                }
            }
            let found = cut(text, start, end);
            let ghost before = texts(lines@);
            lines.push(found.to_owned());
            assert(texts(lines@) =~= before.push(without_return(line)));
            start = i + 1;
            assert(all.subrange(start as int, start as int) =~= Seq::<u8>::empty());
        } else {
            proof {
                let shorter = all.subrange(start as int, i as int);
                let longer = all.subrange(start as int, i + 1);
                assert forall|j: int| 0 <= j < longer.len() implies #[trigger] longer[j]
                    != LINE_FEED by {
                    if j < shorter.len() {
                        assert(shorter[j] == longer[j]);
                    }
                }
            }
        }
        i = i + 1;
    }
    let ghost done = decode_utf8(all.subrange(0, start as int));
    let ghost rest = decode_utf8(all.subrange(start as int, n as int));
    proof {
        lemma_decode_between(all, start as int, n as int);
        assert(all.subrange(0, n as int) =~= all);
        lemma_lacks_from_bytes(all.subrange(start as int, n as int), LINE_FEED, '\n');
        lemma_lines_with_rest(done, rest);
        assert(text@ == done + rest);
    }
    if start < n {
        let found = cut(text, start, n);
        let ghost before = texts(lines@);
        lines.push(found.to_owned());
        proof {
            assert(texts(lines@) =~= before.push(rest));
            reveal_with_fuel(decode_utf8, 2);
            assert(rest.len() > 0);
        }
    } else {
        assert(all.subrange(start as int, n as int) =~= Seq::<u8>::empty());
        assert(rest.len() == 0);
    }
    lines
}

} // verus!
