//! The stored form of a tile: the cells of its grid as 32-bit words, each
//! word least significant byte first, row by row, inside a compression
//! frame.

use vstd::prelude::*;
use vstd::arithmetic::div_mod::{
    lemma_div_denominator, lemma_fundamental_div_mod, lemma_fundamental_div_mod_converse,
};
use crate::grid::Grid;

verus! {

/// Error of a stream read or written in memory; carried through.
#[verifier::external_type_specification]
#[verifier::external_body]
pub struct ExIoError(std::io::Error);

/// The four bytes of a word, the least significant first.
pub open spec fn word_bytes(w: u32) -> Seq<u8> {
    seq![
        (w % 256) as u8,
        (w / 256 % 256) as u8,
        (w / 65536 % 256) as u8,
        (w / 16777216) as u8,
    ]
}

/// The word whose four bytes, the least significant first, stand at `at`.
pub open spec fn word_at(bytes: Seq<u8>, at: int) -> u32 {
    (bytes[at] + 256 * bytes[at + 1] + 65536 * bytes[at + 2] + 16777216 * bytes[at + 3]) as u32
}

/// The bytes of the words, word after word.
pub open spec fn words_to_bytes(words: Seq<u32>) -> Seq<u8> {
    Seq::new(4 * words.len(), |i: int| word_bytes(words[i / 4])[i % 4])
}

/// The words that the bytes spell, four bytes each.
pub open spec fn bytes_to_words(bytes: Seq<u8>) -> Seq<u32> {
    Seq::new((bytes.len() / 4) as nat, |i: int| word_at(bytes, 4 * i))
}

/// The bytes of a word spell that word.
pub proof fn lemma_word_of_its_bytes(w: u32)
    ensures
        word_at(word_bytes(w), 0) == w,
{
    let b = word_bytes(w);
    let q1 = w as int / 256;
    let q2 = q1 / 256;
    let q3 = q2 / 256;
    lemma_fundamental_div_mod(w as int, 256);
    lemma_fundamental_div_mod(q1, 256);
    lemma_fundamental_div_mod(q2, 256);
    lemma_div_denominator(w as int, 256, 256);
    lemma_div_denominator(w as int, 65536, 256);
    assert(w as int / 65536 == q2);
    assert(w as int / 16777216 == q3);
    assert(b[0] == w as int % 256);
    assert(b[1] == q1 % 256);
    assert(b[2] == q2 % 256);
    assert(b[3] == q3);
}

/// The word that four bytes spell has those bytes.
pub proof fn lemma_bytes_of_their_word(b0: u8, b1: u8, b2: u8, b3: u8)
    ensures
        word_bytes((b0 + 256 * b1 + 65536 * b2 + 16777216 * b3) as u32) == seq![b0, b1, b2, b3],
{
    let w = (b0 + 256 * b1 + 65536 * b2 + 16777216 * b3) as u32;
    let q2 = b2 + 256 * b3;
    let q1 = b1 + 256 * q2;
    assert(w as int == 256 * q1 + b0);
    lemma_fundamental_div_mod_converse(w as int, 256, q1, b0 as int);
    lemma_fundamental_div_mod_converse(q1, 256, q2, b1 as int);
    lemma_fundamental_div_mod_converse(q2, 256, b3 as int, b2 as int);
    lemma_div_denominator(w as int, 256, 256);
    lemma_div_denominator(w as int, 65536, 256);
    assert(w as int / 256 == q1);
    assert(w as int / 65536 == q2);
    assert(w as int / 16777216 == b3);
    assert(word_bytes(w) =~= seq![b0, b1, b2, b3]);
}

/// Reading back the bytes of words gives the words.
pub proof fn lemma_words_round_trip(words: Seq<u32>)
    ensures
        bytes_to_words(words_to_bytes(words)) == words,
{
    let bytes = words_to_bytes(words);
    let back = bytes_to_words(bytes);
    assert(back.len() == words.len());
    assert forall|i: int| 0 <= i < words.len() implies back[i] == words[i] by {
        let w = words[i];
        lemma_word_of_its_bytes(w);
        assert(bytes[4 * i] == word_bytes(words[(4 * i) / 4])[(4 * i) % 4]);
        assert(bytes[4 * i + 1] == word_bytes(words[(4 * i + 1) / 4])[(4 * i + 1) % 4]);
        assert(bytes[4 * i + 2] == word_bytes(words[(4 * i + 2) / 4])[(4 * i + 2) % 4]);
        assert(bytes[4 * i + 3] == word_bytes(words[(4 * i + 3) / 4])[(4 * i + 3) % 4]);
        assert(bytes[4 * i] == word_bytes(w)[0]);
        assert(bytes[4 * i + 1] == word_bytes(w)[1]);
        assert(bytes[4 * i + 2] == word_bytes(w)[2]);
        assert(bytes[4 * i + 3] == word_bytes(w)[3]);
    }
    assert(back =~= words);
}

/// Writing out the words that bytes spell gives the bytes, where the bytes
/// are a whole number of words.
pub proof fn lemma_bytes_round_trip(bytes: Seq<u8>)
    requires
        bytes.len() % 4 == 0,
    ensures
        words_to_bytes(bytes_to_words(bytes)) == bytes,
{
    let words = bytes_to_words(bytes);
    let back = words_to_bytes(words);
    assert(back.len() == bytes.len());
    assert forall|k: int| 0 <= k < bytes.len() implies back[k] == bytes[k] by {
        let i = k / 4;
        let j = k % 4;
        assert(words[i] == word_at(bytes, 4 * i));
        lemma_bytes_of_their_word(
            bytes[4 * i],
            bytes[4 * i + 1],
            bytes[4 * i + 2],
            bytes[4 * i + 3],
        );
        assert(back[k] == word_bytes(words[i])[j]);
        assert(k == 4 * i + j);
    }
    assert(back =~= bytes);
}

/// The cells of a grid as bytes: each word least significant byte first.
pub fn encode_words(words: &Vec<u32>) -> (r: Vec<u8>)
    ensures
        r@ == words_to_bytes(words@),
{
    let mut out: Vec<u8> = Vec::new();
    let mut i: usize = 0;
    while i < words.len()
        invariant
            i <= words.len(),
            out@.len() == 4 * i,
            forall|k: int| 0 <= k < 4 * i ==> out@[k] == word_bytes(words@[k / 4])[k % 4],
        decreases words.len() - i,
    {
        let w = words[i];
        out.push((w % 256) as u8);
        out.push((w / 256 % 256) as u8);
        out.push((w / 65536 % 256) as u8);
        out.push((w / 16777216) as u8);
        i = i + 1;
    }
    assert(out@ =~= words_to_bytes(words@));
    out
}

/// The words that the bytes spell; `None` unless the bytes are a whole
/// number of words.
pub fn decode_words(bytes: &Vec<u8>) -> (r: Option<Vec<u32>>)
    ensures
        r is Some <==> bytes@.len() % 4 == 0,
        r matches Some(words) ==> words@ == bytes_to_words(bytes@),
{
    if bytes.len() % 4 != 0 {
        return None;
    }
    let count = bytes.len() / 4;
    let mut out: Vec<u32> = Vec::new();
    let mut i: usize = 0;
    while i < count
        invariant
            count == bytes@.len() / 4,
            bytes@.len() % 4 == 0,
            4 * count == bytes.len(),
            i <= count,
            out@.len() == i,
            forall|k: int| 0 <= k < i ==> out@[k] == word_at(bytes@, 4 * k),
        decreases count - i,
    {
        let at = 4 * i;
        let w: u32 = bytes[at] as u32 + 256 * (bytes[at + 1] as u32) + 65536 * (bytes[at
            + 2] as u32) + 16777216 * (bytes[at + 3] as u32);
        out.push(w);
        i = i + 1;
    }
    assert(out@ =~= bytes_to_words(bytes@));
    Some(out)
}

/// Cells of a square of the given side.
pub open spec fn square(side: nat) -> nat {
    side * side
}

/// `count` cells make a square.
pub open spec fn is_square(count: nat) -> bool {
    exists|d: nat| #[trigger] square(d) == count
}

/// The side of a square of `count` cells; `None` where `count` is not a
/// square number.
pub fn square_side(count: usize) -> (r: Option<usize>)
    ensures
        r is Some <==> is_square(count as nat),
        r matches Some(side) ==> square(side as nat) == count,
{
    let n: u128 = count as u128;
    let mut lo: u128 = 0;
    let mut hi: u128 = if n < 0x1_0000_0000_0000_0000 {
        n + 1
    } else {
        0x1_0000_0000_0000_0000
    };
    proof {
        assert(hi * hi > n) by (nonlinear_arith)
            requires
                n >= 0,
                hi == n + 1 || (hi == 0x1_0000_0000_0000_0000 && n <= 0xffff_ffff_ffff_ffff_ffff_ffff_ffff_ffff),
                n < 0x1_0000_0000_0000_0000 ==> hi == n + 1,
        ;
        assert(lo * lo <= n) by (nonlinear_arith)
            requires
                lo == 0,
                n >= 0,
        ;
    }
    while hi - lo > 1
        invariant
            n == count,
            lo < hi <= 0x1_0000_0000_0000_0000,
            lo * lo <= n,
            hi * hi > n,
        decreases hi - lo,
    {
        let mid: u128 = lo + (hi - lo) / 2;
        proof {
            assert(mid * mid < 0x1_0000_0000_0000_0000 * 0x1_0000_0000_0000_0000)
                by (nonlinear_arith)
                requires
                    0 <= mid < 0x1_0000_0000_0000_0000,
            ;
        }
        if mid * mid <= n {
            lo = mid;
        } else {
            hi = mid;
        }
    }
    if lo * lo == n {
        proof {
            assert(lo <= n) by (nonlinear_arith)
                requires
                    lo * lo == n,
                    lo >= 0,
            ;
            assert(square(lo as nat) == count);
        }
        Some(lo as usize)
    } else {
        proof {
            assert forall|d: nat| #[trigger] square(d) != count by {
                if d <= lo {
                    assert(d * d <= lo * lo) by (nonlinear_arith)
                        requires
                            0 <= d <= lo,
                    ;
                } else {
                    assert(d * d >= hi * hi) by (nonlinear_arith)
                        requires
                            d >= hi,
                            hi >= 0,
                    ;
                }
            }
        }
        None
    }
}

/// Why stored bytes are not a tile.
#[derive(Clone, Copy, Debug, PartialEq, Eq, Structural)]
pub enum PayloadError {
    /// The compression frame could not be written or read.
    Codec,
    /// The content is not a whole number of 32-bit words.
    NotWords,
    /// The words are not the cells of a square.
    NotSquare,
}

/// The square grid that the bytes spell, row by row.
pub open spec fn grid_of_bytes(bytes: Seq<u8>) -> Result<Seq<u32>, PayloadError> {
    if bytes.len() % 4 != 0 {
        Err(PayloadError::NotWords)
    } else if !is_square((bytes.len() / 4) as nat) {
        Err(PayloadError::NotSquare)
    } else {
        Ok(bytes_to_words(bytes))
    }
}

/// Reads the content of a tile, as it comes out of its compression frame,
/// as a square grid of words: the bytes must be a whole number of words, and
/// the words the cells of a square.
pub fn grid_from_bytes(bytes: &Vec<u8>) -> (r: Result<Grid<u32>, PayloadError>)
    ensures
        match r {
            Ok(g) => grid_of_bytes(bytes@) == Ok::<Seq<u32>, PayloadError>(g.cells()) && g.wf()
                && g.width() == g.height(),
            Err(e) => grid_of_bytes(bytes@) == Err::<Seq<u32>, PayloadError>(e),
        },
{
    let words = match decode_words(bytes) {
        Some(words) => words,
        None => {
            return Err(PayloadError::NotWords);
        },
    };
    let side = match square_side(words.len()) {
        Some(side) => side,
        None => {
            return Err(PayloadError::NotSquare);
        },
    };
    match Grid::from_cells(side, side, words) {
        Some(g) => Ok(g),
        None => {
            proof {
                assert(false);
            }
            Err(PayloadError::NotSquare)
        },
    }
}

/// The content of a tile: the cells of its grid as bytes, row by row.
pub fn grid_to_bytes(grid: &Grid<u32>) -> (r: Vec<u8>)
    ensures
        r@ == words_to_bytes(grid.cells()),
{
    encode_words(grid.as_cells())
}

/// The frame that `zstd::stream::encode_all` makes of `content` at
/// `level`; `None` where it reports an error.
pub uninterp spec fn zstd_frame(content: Seq<u8>, level: i32) -> Option<Seq<u8>>;

/// What `zstd::stream::decode_all` reads out of `frame`; `None` where it
/// reports an error.
pub uninterp spec fn zstd_content(frame: Seq<u8>) -> Option<Seq<u8>>;

/// `zstd::stream::encode_all` on bytes in memory: whether it succeeds and
/// the frame it gives depend on the content and the level alone.
#[verifier::external_body]
fn compress(content: &Vec<u8>, level: i32) -> (r: Result<Vec<u8>, std::io::Error>)
    ensures
        r is Ok <==> zstd_frame(content@, level) is Some,
        r matches Ok(frame) ==> zstd_frame(content@, level) == Some(frame@),
{
    zstd::stream::encode_all(content.as_slice(), level)
}

/// `zstd::stream::decode_all` on bytes in memory: it succeeds exactly on
/// the frames that have a content, and gives that content.
#[verifier::external_body]
fn decompress(frame: &Vec<u8>) -> (r: Result<Vec<u8>, std::io::Error>)
    ensures
        r is Ok <==> zstd_content(frame@) is Some,
        r matches Ok(content) ==> zstd_content(frame@) == Some(content@),
{
    zstd::stream::decode_all(frame.as_slice())
}

/// Puts bytes into a compression frame at the given level. Fails with
/// `Codec` exactly where the frame cannot be written.
pub fn frame_bytes(content: &Vec<u8>, level: i32) -> (r: Result<Vec<u8>, PayloadError>)
    ensures
        match zstd_frame(content@, level) {
            Some(bytes) => r matches Ok(frame) && frame@ == bytes,
            None => r == Err::<Vec<u8>, PayloadError>(PayloadError::Codec),
        },
{
    match compress(content, level) {
        Ok(frame) => Ok(frame),
        Err(_) => Err(PayloadError::Codec),
    }
}

/// Takes the bytes out of a compression frame. Fails with `Codec` exactly
/// where the frame cannot be read.
pub fn unframe_bytes(frame: &Vec<u8>) -> (r: Result<Vec<u8>, PayloadError>)
    ensures
        match zstd_content(frame@) {
            Some(bytes) => r matches Ok(content) && content@ == bytes,
            None => r == Err::<Vec<u8>, PayloadError>(PayloadError::Codec),
        },
{
    match decompress(frame) {
        Ok(content) => Ok(content),
        Err(_) => Err(PayloadError::Codec),
    }
}

/// The stored form of a tile: the cells of its grid as bytes inside a
/// compression frame. Fails with `Codec` exactly where the frame cannot be
/// written.
pub fn encode_payload(grid: &Grid<u32>, level: i32) -> (r: Result<Vec<u8>, PayloadError>)
    ensures
        match zstd_frame(words_to_bytes(grid.cells()), level) {
            Some(bytes) => r matches Ok(frame) && frame@ == bytes,
            None => r == Err::<Vec<u8>, PayloadError>(PayloadError::Codec),
        },
{
    let content = grid_to_bytes(grid);
    frame_bytes(&content, level)
}

/// Reads a stored tile back: the content of its compression frame as a
/// square grid of words. Fails with `Codec` where the frame cannot be read,
/// and as `grid_from_bytes` does on its content.
pub fn decode_payload(frame: &Vec<u8>) -> (r: Result<Grid<u32>, PayloadError>)
    ensures
        match zstd_content(frame@) {
            None => r == Err::<Grid<u32>, PayloadError>(PayloadError::Codec),
            Some(content) => match r {
                Ok(g) => grid_of_bytes(content) == Ok::<Seq<u32>, PayloadError>(g.cells())
                    && g.wf() && g.width() == g.height(),
                Err(e) => grid_of_bytes(content) == Err::<Seq<u32>, PayloadError>(e),
            },
        },
{
    match unframe_bytes(frame) {
        Ok(content) => grid_from_bytes(&content),
        Err(e) => Err(e),
    }
}

} // verus!
