//! Reading the faces of a triangle mesh from text in the Wavefront OBJ
//! style, one record per line: `f i j k` names a triangle by the 1-based
//! indices of its three vertices. Lines that are no such record are skipped.

use vstd::prelude::*;
use crate::strings::{chars_of, split, split_on, views};

verus! {

/// Whether `c` is a decimal digit.
pub open spec fn is_digit(c: char) -> bool {
    '0' <= c && c <= '9'
}

/// The number that a string of decimal digits writes.
pub open spec fn digits_value(s: Seq<char>) -> nat
    decreases s.len(),
{
    if s.len() == 0 {
        0
    } else {
        digits_value(s.drop_last()) * 10 + (s.last() as nat - '0' as nat) as nat
    }
}

/// The index that `s` writes: one or more decimal digits, with an optional
/// `+` before them, whose value fits a `usize`. Anything else is no index.
pub open spec fn index_of(s: Seq<char>) -> Option<usize> {
    let digits = unsigned_part(s);
    if digits.len() > 0 && all_digits(digits) && digits_value(digits) <= usize::MAX {
        Some(digits_value(digits) as usize)
    } else {
        None
    }
}

/// `s` without the `+` that may stand before it.
pub open spec fn unsigned_part(s: Seq<char>) -> Seq<char> {
    if s.len() > 0 && s[0] == '+' {
        s.drop_first()
    } else {
        s
    }
}

/// Whether every character of `s` is a decimal digit.
pub open spec fn all_digits(s: Seq<char>) -> bool {
    forall|i: int| 0 <= i < s.len() ==> is_digit(#[trigger] s[i])
}

/// A longer string of digits writes no smaller a number than its beginning.
proof fn lemma_digits_value_grows(s: Seq<char>, k: int)
    requires
        0 <= k <= s.len(),
    ensures
        digits_value(s.take(k)) <= digits_value(s),
    decreases s.len() - k,
{
    if k < s.len() {
        lemma_digits_value_grows(s, k + 1);
        assert(s.take(k + 1).drop_last() =~= s.take(k));
    } else {
        assert(s.take(k) =~= s);
    }
}

/// Reads an index: decimal digits, with an optional `+` before them.
pub fn parse_index(s: &str) -> (index: Option<usize>)
    ensures
        index == index_of(s@),
{
    let chars = chars_of(s);
    let n = chars.len();
    let first: usize = if n > 0 && chars[0] == '+' { 1 } else { 0 };
    let ghost digits = unsigned_part(s@);
    if first == n {
        return None;
    }
    let mut value: usize = 0;
    let mut i: usize = first;
    assert(digits.take(0) =~= Seq::empty());
    while i < n
        invariant
            chars@ == s@,
            n == chars.len(),
            first <= i <= n,
            first <= 1,
            digits == s@.subrange(first as int, n as int),
            digits == unsigned_part(s@),
            forall|j: int| 0 <= j < i - first ==> is_digit(#[trigger] digits[j]),
            value == digits_value(digits.take(i - first)),
        decreases n - i,
    {
        let c = chars[i];
        assert(c == digits[i - first]);
        if !('0' <= c && c <= '9') {
            assert(!is_digit(digits[i - first]));
            return None;
        }
        let d: usize = (c as u32 - '0' as u32) as usize;
        proof {
            assert(digits.take(i - first + 1).drop_last() =~= digits.take(i - first));
            lemma_digits_value_grows(digits, i - first + 1);
        }
        match value.checked_mul(10) {
            None => {
                return None;
            },
            Some(tens) => match tens.checked_add(d) {
                None => {
                    return None;
                },
                Some(sum) => {
                    value = sum;
                },
            },
        }
        i += 1;
    }
    assert(digits.take(n - first) =~= digits);
    Some(value)
}

/// The three fields of the record `line`, if it is a record with the given
/// tag: exactly four fields separated by single spaces, the first of them
/// the tag alone.
pub open spec fn record_of(line: Seq<char>, tag: char) -> Option<(Seq<char>, Seq<char>, Seq<char>)> {
    let fields = split_on(line, ' ');
    if fields.len() == 4 && fields[0] == seq![tag] {
        Some((fields[1], fields[2], fields[3]))
    } else {
        None
    }
}

/// The view of three fields that may be missing.
pub open spec fn record_view(r: Option<(&str, &str, &str)>) -> Option<(Seq<char>, Seq<char>, Seq<char>)> {
    match r {
        Some((a, b, c)) => Some((a@, b@, c@)),
        None => None,
    }
}

/// Takes a record apart: returns the three fields that follow the tag, or
/// `None` where `line` is no record with that tag.
pub fn record_fields<'a>(line: &'a str, tag: char) -> (r: Option<(&'a str, &'a str, &'a str)>)
    ensures
        record_view(r) == record_of(line@, tag),
{
    let fields = split(line, ' ');
    assert(views(fields@).len() == fields@.len());
    if fields.len() != 4 {
        return None;
    }
    assert(views(fields@)[0] == fields@[0]@);
    assert(views(fields@)[1] == fields@[1]@);
    assert(views(fields@)[2] == fields@[2]@);
    assert(views(fields@)[3] == fields@[3]@);
    let head = chars_of(fields[0]);
    if head.len() == 1 && head[0] == tag {
        assert(head@ =~= seq![tag]);
        Some((fields[1], fields[2], fields[3]))
    } else {
        assert(seq![tag].len() == 1 && seq![tag][0] == tag);
        None
    }
}

/// The face that `line` names: a record with the tag `f` whose three fields
/// are indices.
pub open spec fn face_of(line: Seq<char>) -> Option<(usize, usize, usize)> {
    match record_of(line, 'f') {
        Some((a, b, c)) => match (index_of(a), index_of(b), index_of(c)) {
            (Some(i), Some(j), Some(k)) => Some((i, j, k)),
            _ => None,
        },
        None => None,
    }
}

/// Reads a face record `f i j k`. Any other line gives `None`.
pub fn face_from_string(s: &str) -> (face: Option<(usize, usize, usize)>)
    ensures
        face == face_of(s@),
{
    match record_fields(s, 'f') {
        None => None,
        Some((a, b, c)) => {
            match (parse_index(a), parse_index(b), parse_index(c)) {
                (Some(i), Some(j), Some(k)) => Some((i, j, k)),
                _ => None,
            }
        },
    }
}

/// The faces that the first `n` of the given lines name, in their order.
pub open spec fn faces_of(lines: Seq<Seq<char>>, n: int) -> Seq<(usize, usize, usize)>
    decreases n,
{
    if n <= 0 {
        Seq::empty()
    } else {
        match face_of(lines[n - 1]) {
            Some(face) => faces_of(lines, n - 1).push(face),
            None => faces_of(lines, n - 1),
        }
    }
}

/// Reads the faces of a mesh: every line of `content` that is a face record,
/// in order. All other lines are skipped.
pub fn parse_faces(content: &str) -> (faces: Vec<(usize, usize, usize)>)
    ensures
        faces@ == faces_of(
            split_on(content@, '\n'),
            split_on(content@, '\n').len() as int,
        ),
{
    let lines = split(content, '\n');
    let mut faces: Vec<(usize, usize, usize)> = Vec::new();
    let mut i: usize = 0;
    while i < lines.len()
        invariant
            i <= lines.len(),
            views(lines@) == split_on(content@, '\n'),
            faces@ == faces_of(split_on(content@, '\n'), i as int),
        decreases lines.len() - i,
    {
        assert(views(lines@)[i as int] == lines@[i as int]@);
        match face_from_string(lines[i]) {
            Some(face) => {
                faces.push(face);
            },
            None => {},
        }
        i += 1;
    }
    assert(views(lines@).len() == lines@.len());
    faces
}

/// Positions, in a list of `n_verts` vertices, of the three vertices that
/// `face` names by their 1-based indices; `None` unless every index is
/// between 1 and `n_verts`.
pub fn vertex_indices(face: (usize, usize, usize), n_verts: usize) -> (at: Option<(usize, usize, usize)>)
    ensures
        at is Some <==> 1 <= face.0 <= n_verts && 1 <= face.1 <= n_verts && 1 <= face.2 <= n_verts,
        at matches Some(p) ==> p.0 == face.0 - 1 && p.1 == face.1 - 1 && p.2 == face.2 - 1,
{
    if 1 <= face.0 && face.0 <= n_verts && 1 <= face.1 && face.1 <= n_verts && 1 <= face.2 && face.2
        <= n_verts {
        Some((face.0 - 1, face.1 - 1, face.2 - 1))
    } else {
        None
    }
}

} // verus!
