//! Characters and fields of string slices.

use vstd::prelude::*;

verus! {

/// The characters of `s`, in order.
pub fn chars_of(s: &str) -> (v: Vec<char>)
    ensures
        v@ == s@,
{
    let mut v: Vec<char> = Vec::new();
    for c in it: s.chars()
        invariant
            it.seq() == s@,
            v@ == s@.take(it.index() as int),
    {
        v.push(c);
        assert(s@.take(it.index() + 1) =~= s@.take(it.index() as int).push(c));
    }
    assert(s@.take(s@.len() as int) =~= s@);
    v
}

/// The fields of `s`: the pieces between its separators. A separator starts
/// a new, empty field; any other character extends the last field. A string
/// with `k` separators has `k + 1` fields, some of which may be empty.
pub open spec fn split_on(s: Seq<char>, sep: char) -> Seq<Seq<char>>
    decreases s.len(),
{
    if s.len() == 0 {
        seq![Seq::empty()]
    } else {
        let before = split_on(s.drop_last(), sep);
        if s.last() == sep {
            before.push(Seq::empty())
        } else {
            before.drop_last().push(before.last().push(s.last()))
        }
    }
}

/// The fields joined again, with the separator between each two.
pub open spec fn joined(fields: Seq<Seq<char>>, sep: char) -> Seq<char>
    decreases fields.len(),
{
    if fields.len() == 0 {
        Seq::empty()
    } else if fields.len() == 1 {
        fields[0]
    } else {
        joined(fields.drop_last(), sep).push(sep) + fields.last()
    }
}

/// Splitting loses nothing: there is at least one field, no field holds the
/// separator, and the fields joined with the separator are the string.
pub proof fn lemma_split_joins(s: Seq<char>, sep: char)
    ensures
        split_on(s, sep).len() >= 1,
        forall|i: int| 0 <= i < split_on(s, sep).len() ==> !(#[trigger] split_on(s, sep)[i]).contains(sep),
        joined(split_on(s, sep), sep) == s,
    decreases s.len(),
{
    let fields = split_on(s, sep);
    if s.len() == 0 {
        assert(joined(fields, sep) =~= s);
    } else {
        let before = split_on(s.drop_last(), sep);
        lemma_split_joins(s.drop_last(), sep);
        let c = s.last();
        assert(s =~= s.drop_last().push(c));
        if c == sep {
            assert(fields.drop_last() =~= before);
            assert(joined(fields, sep) =~= s);
        } else {
            let grown = before.last().push(c);
            assert(!grown.contains(sep)) by {
                if grown.contains(sep) {
                    let j = choose|j: int| 0 <= j < grown.len() && grown[j] == sep;
                    assert(before.last()[j] == sep);
                    assert(before.last().contains(sep));
                }
            }
            assert forall|i: int| 0 <= i < fields.len() implies !(#[trigger] fields[i]).contains(
                sep,
            ) by {
                if i < fields.len() - 1 {
                    assert(fields[i] == before[i]);
                }
            }
            if before.len() == 1 {
                assert(joined(fields, sep) =~= s);
            } else {
                assert(fields.drop_last() =~= before.drop_last());
                assert(joined(fields, sep) =~= joined(before, sep).push(c));
            }
        }
    }
}

/// The views of a list of string slices.
pub open spec fn views(fields: Seq<&str>) -> Seq<Seq<char>> {
    Seq::new(fields.len(), |i: int| fields[i]@)
}

/// Splits `s` at every occurrence of `sep`.
pub fn split<'a>(s: &'a str, sep: char) -> (fields: Vec<&'a str>)
    ensures
        views(fields@) == split_on(s@, sep),
{
    let chars = chars_of(s);
    let n = chars.len();
    let mut fields: Vec<&'a str> = Vec::new();
    let mut start: usize = 0;
    let mut i: usize = 0;
    assert(s@.take(0) =~= Seq::empty());
    assert(views(fields@).push(s@.subrange(0, 0)) =~= seq![Seq::empty()]);
    while i < n
        invariant
            chars@ == s@,
            n == chars.len(),
            start <= i <= n,
            split_on(s@.take(i as int), sep) == views(fields@).push(
                s@.subrange(start as int, i as int),
            ),
        decreases n - i,
    {
        let ghost before = split_on(s@.take(i as int), sep);
        assert(s@.take(i + 1).drop_last() =~= s@.take(i as int));
        assert(s@.take(i + 1).last() == s@[i as int]);
        if chars[i] == sep {
            let field = s.substring_char(start, i);
            let ghost old_fields = fields@;
            fields.push(field);
            start = i + 1;
            assert(views(fields@) =~= views(old_fields).push(field@));
            assert(s@.subrange(start as int, i + 1) =~= Seq::empty());
        } else {
            assert(before.drop_last() =~= views(fields@));
            assert(s@.subrange(start as int, i + 1) =~= before.last().push(s@[i as int]));
        }
        i += 1;
    }
    assert(s@.take(n as int) =~= s@);
    let field = s.substring_char(start, n);
    let ghost old_fields = fields@;
    fields.push(field);
    assert(views(fields@) =~= views(old_fields).push(field@));
    fields
}

} // verus!
