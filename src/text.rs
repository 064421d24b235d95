//! Character sequences and their conversion to and from `String`.
use vstd::prelude::*;
use vstd::std_specs::iter::IteratorSpec;

verus! {

/// Relies on `FromIterator<&char> for String`: the characters, in order.
#[verifier::external_body]
pub fn string_of(v: &Vec<char>) -> (r: String)
    ensures
        r@ == v@,
{
    v.iter().collect()
}

/// The characters of a string, in order.
pub fn chars_of(s: &str) -> (r: Vec<char>)
    ensures
        r@ == s@,
{
    broadcast use vstd::string::next_postcondition, vstd::string::axiom_spec_iter;

    let mut it = s.chars();
    let mut out: Vec<char> = Vec::new();
    loop
        invariant
            out@ + IteratorSpec::remaining(&it) == s@,
            IteratorSpec::decrease(&it) is Some,
        ensures
            out@ == s@,
        decreases IteratorSpec::decrease(&it)->0,
    {
        let ghost before = IteratorSpec::remaining(&it);
        match it.next() {
            Some(c) => {
                out.push(c);
                assert(out@ + IteratorSpec::remaining(&it) =~= s@);
            },
            None => {
                assert(out@ =~= s@);
                break;
            },
        }
    }
    out
}

pub open spec fn views(x: Seq<Vec<char>>) -> Seq<Seq<char>> {
    x.map_values(|v: Vec<char>| v@)
}

pub open spec fn row_view(row: Seq<String>) -> Seq<Seq<char>> {
    row.map_values(|c: String| c@)
}

/// The characters of each string of a row.
pub fn row_chars(row: &Vec<String>) -> (r: Vec<Vec<char>>)
    ensures
        views(r@) == row_view(row@),
{
    let mut out: Vec<Vec<char>> = Vec::new();
    let mut i: usize = 0;
    while i < row.len()
        invariant
            i <= row@.len(),
            views(out@) == row_view(row@.take(i as int)),
        decreases row@.len() - i,
    {
        let c = chars_of(row[i].as_str());
        let ghost prev = out@;
        out.push(c);
        proof {
            assert(out@ == prev.push(c));
            assert(views(out@) =~= views(prev).push(c@));
            assert(row@.take(i + 1) =~= row@.take(i as int).push(row@[i as int]));
            assert(row_view(row@.take(i + 1)) =~= row_view(row@.take(i as int)).push(row@[i as int]@));
        }
        i = i + 1;
        assert(views(out@) =~= row_view(row@.take(i as int)));
    }
    assert(row@.take(i as int) =~= row@);
    out
}

} // verus!
