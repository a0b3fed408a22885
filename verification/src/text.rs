//! Reading text: splitting at a separator and hexadecimal numbers.

use vstd::prelude::*;
use vstd::string::StrSliceExecFns;

verus! {

/// Error of reading a number; carried through.
#[verifier::external_type_specification]
#[verifier::external_body]
pub struct ExParseIntError(std::num::ParseIntError);

/// Place of the first `c` in `s`, or -1 where there is none.
pub open spec fn first_index(s: Seq<char>, c: char) -> int
    decreases s.len(),
{
    if s.len() == 0 {
        -1
    } else if s[0] == c {
        0
    } else {
        let rest = first_index(s.drop_first(), c);
        if rest < 0 {
            -1
        } else {
            rest + 1
        }
    }
}

/// The parts of `s` between the separators `sep`: one more than there are
/// separators, empty parts included.
pub open spec fn split(s: Seq<char>, sep: char) -> Seq<Seq<char>>
    decreases s.len(),
    via split_decreases
{
    let i = first_index(s, sep);
    if 0 <= i < s.len() {
        seq![s.take(i)] + split(s.skip(i + 1), sep)
    } else {
        seq![s]
    }
}

#[via_fn]
proof fn split_decreases(s: Seq<char>, sep: char) {
}

/// Where the first `c` stands at `k`, `first_index` is `k`.
pub proof fn lemma_first_index_found(s: Seq<char>, c: char, k: int)
    requires
        0 <= k < s.len(),
        s[k] == c,
        forall|j: int| 0 <= j < k ==> s[j] != c,
    ensures
        first_index(s, c) == k,
    decreases k,
{
    if k > 0 {
        let rest = s.drop_first();
        assert(rest[k - 1] == s[k]);
        assert forall|j: int| 0 <= j < k - 1 implies rest[j] != c by {
            assert(rest[j] == s[j + 1]);
        }
        lemma_first_index_found(rest, c, k - 1);
    }
}

/// Where there is no `c`, `first_index` is -1.
pub proof fn lemma_first_index_none(s: Seq<char>, c: char)
    requires
        forall|j: int| 0 <= j < s.len() ==> s[j] != c,
    ensures
        first_index(s, c) == -1,
    decreases s.len(),
{
    if s.len() > 0 {
        let rest = s.drop_first();
        assert forall|j: int| 0 <= j < rest.len() implies rest[j] != c by {
            assert(rest[j] == s[j + 1]);
        }
        lemma_first_index_none(rest, c);
    }
}

/// The views of the strings.
pub open spec fn views(parts: Seq<String>) -> Seq<Seq<char>> {
    Seq::new(parts.len(), |i: int| parts[i]@)
}

/// The parts of `s` between the separators `sep`.
pub fn split_at(s: &str, sep: char) -> (r: Vec<String>)
    ensures
        views(r@) == split(s@, sep),
{
    let len = s.unicode_len();
    let mut out: Vec<String> = Vec::new();
    let mut start: usize = 0;
    let mut i: usize = 0;
    assert(s@.skip(0) =~= s@);
    assert(views(out@) + split(s@.skip(0), sep) =~= split(s@, sep));
    while i < len
        invariant
            len == s@.len(),
            start <= i <= len,
            split(s@, sep) == views(out@) + split(s@.skip(start as int), sep),
            forall|j: int| start <= j < i ==> s@[j] != sep,
        decreases len - i,
    {
        if s.get_char(i) == sep {
            let part = s.substring_char(start, i).to_owned();
            proof {
                let tail = s@.skip(start as int);
                assert forall|j: int| 0 <= j < i - start implies tail[j] != sep by {
                    assert(tail[j] == s@[start + j]);
                }
                lemma_first_index_found(tail, sep, i - start);
                assert(tail.take(i - start) =~= s@.subrange(start as int, i as int));
                assert(tail.skip(i - start + 1) =~= s@.skip(i + 1));
                assert(views(out@.push(part)) =~= views(out@) + seq![part@]);
                assert(views(out@) + (seq![part@] + split(s@.skip(i + 1), sep)) =~= views(out@)
                    + seq![part@] + split(s@.skip(i + 1), sep));
            }
            out.push(part);
            start = i + 1;
        }
        i = i + 1;
    }
    let part = s.substring_char(start, len).to_owned();
    proof {
        let tail = s@.skip(start as int);
        assert forall|j: int| 0 <= j < tail.len() implies tail[j] != sep by {
            assert(tail[j] == s@[start + j]);
        }
        lemma_first_index_none(tail, sep);
        assert(tail =~= s@.subrange(start as int, len as int));
        assert(views(out@.push(part)) =~= views(out@) + seq![part@]);
    }
    out.push(part);
    out
}

/// Value of a hexadecimal digit, in either case.
pub open spec fn hex_digit(c: char) -> Option<nat> {
    if '0' <= c <= '9' {
        Some((c as u32 - '0' as u32) as nat)
    } else if 'a' <= c <= 'f' {
        Some((c as u32 - 'a' as u32 + 10) as nat)
    } else if 'A' <= c <= 'F' {
        Some((c as u32 - 'A' as u32 + 10) as nat)
    } else {
        None
    }
}

/// Value of hexadecimal digits, the most significant first.
pub open spec fn hex_value(s: Seq<char>) -> nat
    decreases s.len(),
{
    if s.len() == 0 {
        0
    } else {
        16 * hex_value(s.drop_last()) + hex_digit(s.last()).unwrap()
    }
}

/// The digits of a number that may have a plus sign before them.
pub open spec fn unsigned_body(s: Seq<char>) -> Seq<char> {
    if s.len() > 0 && s[0] == '+' {
        s.skip(1)
    } else {
        s
    }
}

/// `s` is a hexadecimal number that fits in 32 bits: at least one digit,
/// digits only but for one plus sign that may stand first.
pub open spec fn is_hex_u32(s: Seq<char>) -> bool {
    let body = unsigned_body(s);
    &&& body.len() > 0
    &&& forall|i: int| 0 <= i < body.len() ==> hex_digit(#[trigger] body[i]) is Some
    &&& hex_value(body) <= u32::MAX
}

/// `u32::from_str_radix` with radix 16: it succeeds exactly on a
/// hexadecimal number that fits in 32 bits, written with digits of either
/// case and at most a plus sign before them, and gives its value.
#[verifier::external_body]
pub(crate) fn parse_hex(s: &str) -> (r: Result<u32, std::num::ParseIntError>)
    ensures
        r is Ok <==> is_hex_u32(s@),
        r matches Ok(v) ==> v == hex_value(unsigned_body(s@)),
{
    u32::from_str_radix(s, 16)
}

} // verus!
