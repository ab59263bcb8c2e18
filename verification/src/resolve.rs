use vstd::prelude::*;

use crate::error::CannotResolveError;
use crate::literal::{find_either, first_index};
use crate::util::strings_view;

verus! {

/// The pieces of `s` between the occurrences of `sep`, in order; text without
/// `sep` is one piece.
pub open spec fn split_on(s: Seq<char>, sep: char) -> Seq<Seq<char>>
    decreases s.len(),
{
    let i = first_index(s, sep, sep);
    if i < 0 {
        seq![s]
    } else {
        proof {
            lemma_first_index_bound(s, sep, sep);
        }
        seq![s.take(i)] + split_on(s.skip(i + 1), sep)
    }
}

/// `first_index` is -1 or an index of the sequence.
pub proof fn lemma_first_index_bound(s: Seq<char>, a: char, b: char)
    ensures
        -1 <= first_index(s, a, b) < s.len(),
    decreases s.len(),
{
    if s.len() > 0 {
        lemma_first_index_bound(s.drop_first(), a, b);
    }
}

/// The directories listed in the value of a search path variable: the pieces
/// between `;`; an unset variable lists none.
pub fn search_dirs(value: Option<&str>) -> (r: Vec<String>)
    ensures
        strings_view(r@) == match value {
            Some(v) => split_on(v@, ';'),
            None => Seq::empty(),
        },
{
    match value {
        None => {
            let r: Vec<String> = Vec::new();
            assert(strings_view(r@) =~= Seq::<Seq<char>>::empty());
            r
        },
        Some(v) => split_text(v, ';'),
    }
}

/// The pieces of `v` between the occurrences of `sep`, in order; text without
/// `sep` is one piece.
pub fn split_text(v: &str, sep: char) -> (r: Vec<String>)
    ensures
        strings_view(r@) == split_on(v@, sep),
{
    let mut r: Vec<String> = Vec::new();
    let cs = crate::text::chars_of(v);
    let mut lo: usize = 0;
    assert(cs@.subrange(0, cs.len() as int) =~= v@);
    loop
        invariant
            cs@ == v@,
            lo <= cs.len(),
            split_on(v@, sep) == strings_view(r@) + split_on(cs@.subrange(lo as int, cs.len() as int), sep),
        decreases cs.len() - lo,
    {
        let ghost rest = cs@.subrange(lo as int, cs.len() as int);
        proof {
            lemma_first_index_bound(rest, sep, sep);
        }
        match find_either(&cs, lo, cs.len(), sep, sep) {
            None => {
                let mut piece = String::new();
                let mut j = lo;
                while j < cs.len()
                    invariant
                        lo <= j <= cs.len(),
                        piece@ == cs@.subrange(lo as int, j as int),
                    decreases cs.len() - j,
                {
                    piece.push(cs[j]);
                    assert(cs@.subrange(lo as int, j + 1) =~= cs@.subrange(lo as int, j as int).push(cs@[j as int]));
                    j = j + 1;
                }
                let ghost before = strings_view(r@);
                r.push(piece);
                assert(strings_view(r@) =~= before.push(rest));
                assert(split_on(rest, sep) =~= seq![rest]);
                assert(split_on(v@, sep) =~= strings_view(r@));
                return r;
            },
            Some(i) => {
                let mut piece = String::new();
                let mut j = lo;
                while j < lo + i
                    invariant
                        lo <= j <= lo + i < cs.len(),
                        piece@ == cs@.subrange(lo as int, j as int),
                    decreases lo + i - j,
                {
                    piece.push(cs[j]);
                    assert(cs@.subrange(lo as int, j + 1) =~= cs@.subrange(lo as int, j as int).push(cs@[j as int]));
                    j = j + 1;
                }
                let ghost before = strings_view(r@);
                r.push(piece);
                assert(rest.take(i as int) =~= cs@.subrange(lo as int, lo + i));
                assert(rest.skip(i + 1) =~= cs@.subrange(lo + i + 1, cs.len() as int));
                assert(strings_view(r@) =~= before.push(rest.take(i as int)));
                assert(split_on(rest, sep) =~= seq![rest.take(i as int)] + split_on(rest.skip(i + 1), sep));
                lo = lo + i + 1;
            },
        }
    }
}

/// The entries that hold the searched file, in order, given for each entry
/// whether it holds the file.
pub fn paths(entries: &Vec<String>, has_file: &Vec<bool>) -> (r: Vec<String>)
    requires
        entries.len() == has_file.len(),
    ensures
        strings_view(r@) == kept_entries(strings_view(entries@), has_file@),
{
    let mut r: Vec<String> = Vec::new();
    let mut i: usize = 0;
    let ghost es = strings_view(entries@);
    assert(es.take(0) =~= Seq::<Seq<char>>::empty());
    while i < entries.len()
        invariant
            i <= entries.len(),
            entries.len() == has_file.len(),
            es == strings_view(entries@),
            strings_view(r@) == kept_entries(es.take(i as int), has_file@.take(i as int)),
        decreases entries.len() - i,
    {
        assert(es.take(i + 1).drop_last() =~= es.take(i as int));
        assert(has_file@.take(i + 1).drop_last() =~= has_file@.take(i as int));
        let ghost before = strings_view(r@);
        if has_file[i] {
            r.push(entries[i].clone());
            assert(strings_view(r@) =~= before.push(entries@[i as int]@));
        }
        i = i + 1;
    }
    assert(es.take(i as int) =~= es);
    assert(has_file@.take(i as int) =~= has_file@);
    r
}

/// The entries whose flag is set, in order.
pub open spec fn kept_entries(es: Seq<Seq<char>>, flags: Seq<bool>) -> Seq<Seq<char>>
    decreases es.len(),
{
    if es.len() == 0 || flags.len() == 0 {
        Seq::empty()
    } else {
        let prev = kept_entries(es.drop_last(), flags.drop_last());
        if flags.last() {
            prev.push(es.last())
        } else {
            prev
        }
    }
}

/// The first directory that holds the searched file; `name` is what was searched for.
pub fn resolve(name: &str, found: &Vec<String>) -> (r: Result<String, CannotResolveError>)
    ensures
        (r is Ok) == (found.len() > 0),
        r matches Ok(p) ==> p@ == found@[0]@,
        r matches Err(e) ==> e.name@ == name@,
{
    if found.len() > 0 {
        Ok(found[0].clone())
    } else {
        Err(CannotResolveError { name: String::from_str(name) })
    }
}

} // verus!
