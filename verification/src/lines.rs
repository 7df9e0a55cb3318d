//! Comma-delimited rows.
//!
//! A store line is a run of fields joined by the `,` delimiter. Fields are
//! never escaped, so a field that contains the delimiter cannot survive a
//! round trip; splitting and joining are exact inverses only on comma-free
//! fields, which is proved here.

use vstd::prelude::*;
use vstd::string::StrSliceExecFns;

verus! {

/// The fields of a line, split at every comma. Always at least one field.
pub open spec fn split_commas(s: Seq<char>) -> Seq<Seq<char>>
    decreases s.len(),
{
    if s.len() == 0 {
        seq![Seq::<char>::empty()]
    } else {
        let init = split_commas(s.drop_last());
        if s.last() == ',' {
            init.push(Seq::<char>::empty())
        } else {
            init.update(init.len() - 1, init.last().push(s.last()))
        }
    }
}

/// The line obtained by joining fields with commas.
pub open spec fn join_commas(fs: Seq<Seq<char>>) -> Seq<char>
    decreases fs.len(),
{
    if fs.len() == 0 {
        Seq::<char>::empty()
    } else if fs.len() == 1 {
        fs[0]
    } else {
        join_commas(fs.drop_last()) + seq![','] + fs.last()
    }
}

/// A field that does not contain the delimiter.
pub open spec fn comma_free(f: Seq<char>) -> bool {
    forall|i: int| 0 <= i < f.len() ==> f[i] != ','
}

/// Every field of the run is comma-free.
pub open spec fn all_comma_free(fs: Seq<Seq<char>>) -> bool {
    forall|k: int| 0 <= k < fs.len() ==> comma_free(#[trigger] fs[k])
}

/// The view of each string in a vector of fields.
pub open spec fn views_of(v: Seq<String>) -> Seq<Seq<char>> {
    v.map_values(|t: String| t@)
}

pub proof fn lemma_split_commas_len(s: Seq<char>)
    ensures
        split_commas(s).len() >= 1,
    decreases s.len(),
{
    if s.len() > 0 {
        lemma_split_commas_len(s.drop_last());
    }
}

/// Extending a line by a comma-free tail extends its last field.
proof fn lemma_split_app_comma_free(a: Seq<char>, b: Seq<char>)
    requires
        comma_free(b),
    ensures
        split_commas(a + b) =~~= split_commas(a).update(
            split_commas(a).len() - 1,
            split_commas(a).last() + b,
        ),
    decreases b.len(),
{
    lemma_split_commas_len(a);
    if b.len() == 0 {
        assert(a + b =~= a);
        assert(split_commas(a).last() + b =~= split_commas(a).last());
        assert(split_commas(a).update(split_commas(a).len() - 1, split_commas(a).last())
            =~= split_commas(a));
    } else {
        let b0 = b.drop_last();
        let c = b.last();
        assert(comma_free(b0));
        lemma_split_app_comma_free(a, b0);
        let ab0 = a + b0;
        assert((a + b).drop_last() =~= ab0);
        assert((a + b).last() == c);
        assert(c != ',');
        let sa = split_commas(a);
        let l = sa.len() - 1;
        assert(split_commas(ab0) =~~= sa.update(l, sa.last() + b0));
        assert(split_commas(ab0).len() == sa.len());
        assert(split_commas(ab0).last() == sa.last() + b0);
        assert(split_commas(a + b) =~~= split_commas(ab0).update(l, (sa.last() + b0).push(c)));
        assert((sa.last() + b0).push(c) =~= sa.last() + b);
        assert(split_commas(ab0).update(l, sa.last() + b) =~~= sa.update(l, sa.last() + b));
    }
}

/// Appending a comma opens a new, empty field.
proof fn lemma_split_push_comma(a: Seq<char>)
    ensures
        split_commas(a.push(',')) =~~= split_commas(a).push(Seq::<char>::empty()),
{
    assert(a.push(',').drop_last() =~= a);
    assert(a.push(',').last() == ',');
}

/// Splitting a single comma-free field gives back just that field.
pub proof fn lemma_split_single(f: Seq<char>)
    requires
        comma_free(f),
    ensures
        split_commas(f) =~~= seq![f],
{
    lemma_split_app_comma_free(Seq::<char>::empty(), f);
    assert(Seq::<char>::empty() + f =~= f);
    assert(split_commas(Seq::<char>::empty()) =~~= seq![Seq::<char>::empty()]);
    assert(seq![Seq::<char>::empty()].update(0, Seq::<char>::empty() + f) =~~= seq![f]);
}

/// Splitting a line joined from comma-free fields gives back the fields.
pub proof fn lemma_split_join(fs: Seq<Seq<char>>)
    requires
        fs.len() >= 1,
        all_comma_free(fs),
    ensures
        split_commas(join_commas(fs)) =~~= fs,
    decreases fs.len(),
{
    if fs.len() == 1 {
        lemma_split_single(fs[0]);
        assert(seq![fs[0]] =~~= fs);
    } else {
        let init = fs.drop_last();
        assert(all_comma_free(init));
        lemma_split_join(init);
        let a = join_commas(init);
        assert(join_commas(fs) == a + seq![','] + fs.last());
        assert(a + seq![','] =~= a.push(','));
        lemma_split_push_comma(a);
        lemma_split_app_comma_free(a + seq![','], fs.last());
        assert((a + seq![',']) + fs.last() =~= join_commas(fs));
        let sc = split_commas(a + seq![',']);
        assert(sc =~~= init.push(Seq::<char>::empty()));
        assert(sc.last() + fs.last() =~= fs.last());
        assert(split_commas(join_commas(fs)) =~~= sc.update(sc.len() - 1, fs.last()));
        assert(sc.update(sc.len() - 1, fs.last()) =~~= fs);
    }
}

/// Split a line at every comma, as the store's reader does.
pub fn split_line(s: &str) -> (r: Vec<String>)
    ensures
        views_of(r@) =~~= split_commas(s@),
{
    let len = s.unicode_len();
    let mut fields: Vec<String> = Vec::new();
    let mut start: usize = 0;
    let mut i: usize = 0;
    while i < len
        invariant
            0 <= start <= i <= len,
            len == s@.len(),
            forall|j: int| start <= j < i ==> s@[j] != ',',
            split_commas(s@.subrange(0, i as int)) =~~= views_of(fields@).push(
                s@.subrange(start as int, i as int),
            ),
        decreases len - i,
    {
        let c = s.get_char(i);
        proof {
            assert(s@.subrange(0, i + 1).drop_last() =~= s@.subrange(0, i as int));
            assert(s@.subrange(0, i + 1).last() == s@[i as int]);
        }
        if c == ',' {
            let fstr = s.substring_char(start, i);
            let owned = fstr.to_owned();
            proof {
                lemma_split_push_comma(s@.subrange(0, i as int));
                assert(s@.subrange(0, i as int).push(',') =~= s@.subrange(0, i + 1));
                assert(views_of(fields@.push(owned)) =~~= views_of(fields@).push(
                    s@.subrange(start as int, i as int),
                ));
            }
            fields.push(owned);
            start = i + 1;
            proof {
                assert(s@.subrange(start as int, i + 1) =~= Seq::<char>::empty());
                assert(split_commas(s@.subrange(0, i + 1)) =~~= views_of(fields@).push(
                    s@.subrange(start as int, i + 1),
                ));
            }
        } else {
            proof {
                let prev = split_commas(s@.subrange(0, i as int));
                lemma_split_commas_len(s@.subrange(0, i as int));
                assert(prev.last() == s@.subrange(start as int, i as int));
                assert(split_commas(s@.subrange(0, i + 1)) =~~= prev.update(
                    prev.len() - 1,
                    prev.last().push(s@[i as int]),
                ));
                assert(s@.subrange(start as int, i as int).push(s@[i as int]) =~= s@.subrange(
                    start as int,
                    i + 1,
                ));
                assert(prev.update(prev.len() - 1, s@.subrange(start as int, i + 1)) =~~= views_of(
                    fields@,
                ).push(s@.subrange(start as int, i + 1)));
            }
        }
        i += 1;
    }
    let fstr = s.substring_char(start, len);
    let owned = fstr.to_owned();
    proof {
        assert(s@.subrange(0, len as int) =~= s@);
        assert(views_of(fields@.push(owned)) =~~= views_of(fields@).push(
            s@.subrange(start as int, len as int),
        ));
    }
    fields.push(owned);
    fields
}

} // verus!
