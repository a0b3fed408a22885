//! What a tile server decides without touching a container: how a mount
//! argument names a path and a file, and which row of the container holds a
//! requested tile.

use vstd::prelude::*;
use vstd::arithmetic::power2::pow2;
use vstd::string::StrSliceExecFns;
use crate::tile::pow2_u32;

verus! {

/// `i` is the place of the first `c` in `s`.
pub open spec fn is_first(s: Seq<char>, c: char, i: int) -> bool {
    &&& 0 <= i < s.len()
    &&& s[i] == c
    &&& forall|j: int| 0 <= j < i ==> s[j] != c
}

/// `s` without the `c`s at its end.
pub open spec fn trim_end(s: Seq<char>, c: char) -> Seq<char>
    decreases s.len(),
{
    if s.len() > 0 && s.last() == c {
        trim_end(s.drop_last(), c)
    } else {
        s
    }
}

/// What an argument without a colon is answered with.
pub open spec fn mbtiles_format_message() -> Seq<char> {
    "Must be in format /path:mbtiles_file"@
}

/// Reads a mount argument `/path:file` as the path under which tiles are
/// served, without the slashes at its end, and the container file, which is
/// all that follows the first colon. An argument without a colon is an error.
pub fn parse_mbtiles(s: &str) -> (r: Result<(String, String), String>)
    ensures
        (forall|i: int| 0 <= i < s@.len() ==> s@[i] != ':') ==> (r matches Err(message)
            && message@ == mbtiles_format_message()),
        forall|i: int|
            is_first(s@, ':', i) ==> (r matches Ok(parts) && parts.0@ == trim_end(
                s@.take(i),
                '/',
            ) && parts.1@ == s@.skip(i + 1)),
{
    let len = s.unicode_len();
    let mut i: usize = 0;
    while i < len && s.get_char(i) != ':'
        invariant
            len == s@.len(),
            i <= len,
            forall|j: int| 0 <= j < i ==> s@[j] != ':',
        decreases len - i,
    {
        i = i + 1;
    }
    if i == len {
        return Err("Must be in format /path:mbtiles_file".to_owned());
    }
    assert(is_first(s@, ':', i as int));
    let head = s.substring_char(0, i);
    let mut end: usize = i;
    assert(head@.take(end as int) =~= head@);
    while end > 0 && head.get_char(end - 1) == '/'
        invariant
            end <= i,
            head@ == s@.take(i as int),
            head@.len() == i,
            trim_end(head@, '/') == trim_end(head@.take(end as int), '/'),
        decreases end,
    {
        proof {
            let cur = head@.take(end as int);
            assert(cur.last() == '/');
            assert(cur.drop_last() =~= head@.take(end - 1));
        }
        end = end - 1;
    }
    proof {
        let cur = head@.take(end as int);
        if end > 0 {
            assert(cur.last() == head@[end - 1]);
        }
        assert(trim_end(cur, '/') == cur);
        assert(head@.subrange(0, end as int) =~= cur);
        assert(s@.subrange(i + 1, len as int) =~= s@.skip(i + 1));
        assert forall|k: int| is_first(s@, ':', k) implies k == i by {
            if k < i {
                assert(s@[k] != ':');
            } else if i < k {
                assert(s@[i as int] != ':');
            }
        }
    }
    let path = head.substring_char(0, end).to_owned();
    let file = s.substring_char(i + 1, len).to_owned();
    Ok((path, file))
}

/// Row of the container that holds the tile at row `y` of zoom `z`: rows are
/// counted from the bottom there. `None` where `z` has no such row.
pub fn tms_row(z: u32, y: u32) -> (r: Option<u32>)
    ensures
        r is Some <==> z <= 31 && y < pow2(z as nat),
        r matches Some(row) ==> row == pow2(z as nat) - 1 - y,
{
    if z > 31 {
        return None;
    }
    let n = pow2_u32(z as u8);
    if y < n {
        Some(n - 1 - y)
    } else {
        None
    }
}

} // verus!
