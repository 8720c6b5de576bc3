//! From the bytes of a compressed file to its lines, and back.
use std::io::Read;
use std::io::Write;
use vstd::prelude::*;
use vstd::utf8::{decode_utf8, encode_utf8, valid_utf8};
use crate::vecs::reversed;

verus! {

/// What gzip decompression gives for `data`: `None` where `data` does not
/// start with one complete gzip stream. Bytes after that first stream are
/// ignored.
pub uninterp spec fn gunzip_of(data: Seq<u8>) -> Option<Seq<u8>>;

/// Relies on flate2::read::GzDecoder, read to its end: it fails on a
/// malformed or truncated stream and otherwise yields the decompressed
/// bytes, which depend on the input alone.
#[verifier::external_body]
pub(crate) fn gunzip(data: &[u8]) -> (r: Option<Vec<u8>>)
    ensures
        r is Some <==> gunzip_of(data@) is Some,
        r matches Some(v) ==> gunzip_of(data@) == Some(v@),
{
    let mut out: Vec<u8> = Vec::new();
    match flate2::read::GzDecoder::new(data).read_to_end(&mut out) {
        Ok(_) => Some(out),
        Err(_) => None,
    }
}

/// What gzip compression at the default level gives for `data`.
pub uninterp spec fn gzip_of(data: Seq<u8>) -> Seq<u8>;

/// Relies on flate2::write::GzEncoder over a `Vec`, at the default level
/// and with the default header: its output depends on the input alone.
/// Writing into memory does not fail.
#[verifier::external_body]
pub(crate) fn gzip(data: &[u8]) -> (r: Vec<u8>)
    ensures
        r@ == gzip_of(data@),
{
    let mut encoder = flate2::write::GzEncoder::new(Vec::new(), flate2::Compression::default());
    encoder.write_all(data).unwrap();
    encoder.finish().unwrap()
}

/// Relies on String::from_utf8: it succeeds exactly on valid UTF-8 and then
/// holds the characters that the bytes encode.
#[verifier::external_body]
pub(crate) fn utf8_text(bytes: Vec<u8>) -> (r: Option<String>)
    ensures
        r is Some <==> valid_utf8(bytes@),
        r matches Some(s) ==> s@ == decode_utf8(bytes@),
{
    String::from_utf8(bytes).ok()
}

/// The pieces, each followed by a newline.
pub open spec fn joined(pieces: Seq<Seq<u8>>) -> Seq<u8>
    decreases pieces.len(),
{
    if pieces.len() == 0 {
        Seq::empty()
    } else {
        joined(pieces.drop_last()) + pieces.last().push(10u8)
    }
}

/// `pieces` are what lies between the newlines of `data`: no piece holds a
/// newline, and writing each piece with a newline after it gives `data`,
/// with a final newline added where `data` lacks one.
pub open spec fn is_piece_split(data: Seq<u8>, pieces: Seq<Seq<u8>>) -> bool {
    &&& forall|i: int, j: int|
        0 <= i < pieces.len() && 0 <= j < pieces[i].len() ==> #[trigger] pieces[i][j] != 10u8
    &&& if data.len() == 0 {
        pieces.len() == 0
    } else if data.last() == 10u8 {
        joined(pieces) == data
    } else {
        joined(pieces) == data.push(10u8)
    }
}

/// The piece without one carriage return at its end.
pub open spec fn without_cr(piece: Seq<u8>) -> Seq<u8> {
    if piece.len() > 0 && piece.last() == 13u8 {
        piece.drop_last()
    } else {
        piece
    }
}

/// Line `i`: its piece, less a carriage return that stands right before
/// the newline ending it. A last piece with no newline after it is kept
/// whole.
pub open spec fn line_of_piece(data: Seq<u8>, pieces: Seq<Seq<u8>>, i: int) -> Seq<u8> {
    if i < pieces.len() - 1 || data.last() == 10u8 {
        without_cr(pieces[i])
    } else {
        pieces[i]
    }
}

/// `lines` are the lines of `data`, split at each newline, with a carriage
/// return before a newline dropped.
pub open spec fn is_line_split(data: Seq<u8>, lines: Seq<Vec<u8>>) -> bool {
    exists|pieces: Seq<Seq<u8>>|
        {
            &&& is_piece_split(data, pieces)
            &&& lines.len() == pieces.len()
            &&& forall|i: int| 0 <= i < lines.len() ==> #[trigger] lines[i]@ == line_of_piece(data, pieces, i)
        }
}

/// Splits `data` at each newline, dropping a carriage return right before
/// a newline; a last line without a newline counts too.
pub fn split_lines(data: &Vec<u8>) -> (r: Vec<Vec<u8>>)
    ensures
        is_line_split(data@, r@),
{
    let mut lines: Vec<Vec<u8>> = Vec::new();
    let mut cur: Vec<u8> = Vec::new();
    let mut i: usize = 0;
    let ghost mut start: int = 0;
    let ghost mut pieces: Seq<Seq<u8>> = Seq::empty();
    while i < data.len()
        invariant
            0 <= start <= i <= data.len(),
            pieces.len() <= start,
            lines@.len() == pieces.len(),
            start == 0 || data@[start - 1] == 10u8,
            joined(pieces) == data@.take(start),
            cur@ == data@.subrange(start, i as int),
            forall|a: int, b: int|
                0 <= a < pieces.len() && 0 <= b < pieces[a].len() ==> #[trigger] pieces[a][b] != 10u8,
            forall|a: int| 0 <= a < lines@.len() ==> #[trigger] lines@[a]@ == without_cr(pieces[a]),
            forall|b: int| 0 <= b < cur@.len() ==> cur@[b] != 10u8,
        decreases data.len() - i,
    {
        let byte = data[i];
        if byte == 10u8 {
            let ghost prev = pieces;
            let ghost piece = cur@;
            if cur.len() > 0 && cur[cur.len() - 1] == 13u8 {
                cur.pop();
            }
            assert(cur@ == without_cr(piece));
            lines.push(cur);
            cur = Vec::new();
            proof {
                pieces = pieces.push(piece);
                assert(pieces.drop_last() == prev);
                assert(data@.take(i + 1) =~= data@.take(start) + piece.push(10u8));
                assert forall|a: int, b: int|
                    0 <= a < pieces.len() && 0 <= b < pieces[a].len() implies #[trigger] pieces[a][b] != 10u8 by {
                    if a < prev.len() {
                        assert(pieces[a] == prev[a]);
                    }
                }
                start = i + 1;
            }
        } else {
            cur.push(byte);
        }
        i += 1;
        assert(cur@ =~= data@.subrange(start, i as int));
    }
    assert(data@.take(data@.len() as int) =~= data@);
    if cur.len() > 0 {
        let ghost prev = pieces;
        let ghost piece = cur@;
        lines.push(cur);
        proof {
            pieces = pieces.push(piece);
            assert(piece[piece.len() - 1] == data@[data@.len() - 1]);
            assert(pieces.drop_last() == prev);
            assert(data@.push(10u8) =~= data@.take(start) + piece.push(10u8));
            assert forall|a: int, b: int|
                0 <= a < pieces.len() && 0 <= b < pieces[a].len() implies #[trigger] pieces[a][b] != 10u8 by {
                if a < prev.len() {
                    assert(pieces[a] == prev[a]);
                }
            }
            assert forall|a: int| 0 <= a < lines@.len() implies #[trigger] lines@[a]@ == line_of_piece(data@, pieces, a) by {
                if a < prev.len() {
                    assert(pieces[a] == prev[a]);
                }
            }
        }
    } else {
        assert(start == i);
        assert(data@.take(start) =~= data@.take(i as int));
        assert forall|a: int| 0 <= a < lines@.len() implies #[trigger] lines@[a]@ == line_of_piece(data@, pieces, a) by {}
    }
    assert(is_piece_split(data@, pieces));
    lines
}

/// The lines of a decompressed file as text: `None` for a line that is
/// not valid UTF-8.
pub fn decode_file(data: &Vec<u8>) -> (r: Option<Vec<Option<String>>>)
    ensures
        r is None <==> gunzip_of(data@) is None,
        r matches Some(texts) ==> exists|lines: Seq<Vec<u8>>|
            {
                &&& is_line_split(gunzip_of(data@)->0, lines)
                &&& texts@.len() == lines.len()
                &&& forall|i: int|
                    0 <= i < lines.len() ==> (#[trigger] texts@[i] is Some <==> valid_utf8(lines[i]@))
                &&& forall|i: int|
                    0 <= i < lines.len() ==> (#[trigger] texts@[i] matches Some(s) ==> s@ == decode_utf8(lines[i]@))
            },
{
    let bytes = match gunzip(data.as_slice()) {
        Some(b) => b,
        None => return None,
    };
    let split = split_lines(&bytes);
    let ghost all = split@;
    let n = split.len();
    let mut lines = reversed(split);
    let mut texts: Vec<Option<String>> = Vec::new();
    let mut i: usize = 0;
    while i < n
        invariant
            n == all.len(),
            i <= n,
            lines@.len() == n - i,
            forall|j: int| 0 <= j < lines@.len() ==> #[trigger] lines@[j] == all[n - 1 - j],
            texts@.len() == i,
            forall|k: int| 0 <= k < i ==> (#[trigger] texts@[k] is Some <==> valid_utf8(all[k]@)),
            forall|k: int| 0 <= k < i ==> (#[trigger] texts@[k] matches Some(s) ==> s@ == decode_utf8(all[k]@)),
        decreases n - i,
    {
        let line = lines.pop().unwrap();
        assert(line == all[i as int]);
        let text = utf8_text(line);
        texts.push(text);
        i += 1;
    }
    assert(is_line_split(gunzip_of(data@)->0, all));
    Some(texts)
}

/// The output text: each line followed by a newline, as bytes.
pub open spec fn framed(lines: Seq<Seq<u8>>) -> Seq<u8>
    decreases lines.len(),
{
    if lines.len() == 0 {
        Seq::empty()
    } else {
        framed(lines.drop_last()) + lines.last().push(10u8)
    }
}

/// Compresses the given lines, each followed by a newline.
pub fn encode_lines(lines: &Vec<String>) -> (r: Vec<u8>)
    ensures
        r@ == gzip_of(framed(lines@.map_values(|s: String| encode_utf8(s@)))),
{
    let ghost want = lines@.map_values(|s: String| encode_utf8(s@));
    let mut out: Vec<u8> = Vec::new();
    let mut i: usize = 0;
    while i < lines.len()
        invariant
            i <= lines.len(),
            want == lines@.map_values(|s: String| encode_utf8(s@)),
            out@ == framed(want.take(i as int)),
        decreases lines.len() - i,
    {
        let bytes = lines[i].as_str().as_bytes();
        let ghost before = out@;
        let mut j: usize = 0;
        while j < bytes.len()
            invariant
                j <= bytes@.len(),
                out@ == before + bytes@.take(j as int),
            decreases bytes.len() - j,
        {
            out.push(bytes[j]);
            j += 1;
            assert(out@ =~= before + bytes@.take(j as int));
        }
        out.push(10u8);
        assert(want.take(i + 1).drop_last() =~= want.take(i as int));
        assert(out@ =~= before + bytes@.push(10u8));
        i += 1;
    }
    assert(want.take(lines.len() as int) =~= want);
    gzip(out.as_slice())
}

} // verus!
