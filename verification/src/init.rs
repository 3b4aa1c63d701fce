//! Deciding the entry point of a package being initialised in a directory.
use vstd::prelude::*;
use crate::text::{
    chars_of, ends_with, has_suffix, lemma_seq_lt_irrefl, lemma_seq_lt_trans, lt_chars, push_str,
    seq_lt, string_of, strs,
};

verus! {

/// A Maxima source file name: it ends in `.mac`.
pub open spec fn is_mac_file(name: Seq<char>) -> bool {
    has_suffix(name, ".mac"@)
}

/// The Maxima source files among `names`, in order.
pub open spec fn mac_files(names: Seq<Seq<char>>) -> Seq<Seq<char>>
    decreases names.len(),
{
    if names.len() == 0 {
        Seq::empty()
    } else {
        let r = mac_files(names.drop_last());
        if is_mac_file(names.last()) {
            r.push(names.last())
        } else {
            r
        }
    }
}

/// `e` is one of `names` and none of them comes before it: it is the first
/// of them in sorted order.
pub open spec fn first_in_order(names: Seq<Seq<char>>, e: Seq<char>) -> bool {
    names.contains(e) && forall|k: int| 0 <= k < names.len() ==> !seq_lt(#[trigger] names[k], e)
}

/// The entry point of a package `pkg` whose directory holds the regular
/// files `file_names`: `<pkg>.mac` when there is no `.mac` file; the first
/// `.mac` file in sorted order when there is one, or when `yes` accepts
/// the first of several; `None` when there are several and the user is to
/// be asked.
pub fn choose_entry(pkg: &str, file_names: &Vec<String>, yes: bool) -> (r: Option<String>)
    ensures
        mac_files(strs(file_names@)).len() == 0 ==> (r matches Some(e) && e@ == pkg@ + ".mac"@),
        mac_files(strs(file_names@)).len() == 1 || (mac_files(strs(file_names@)).len() > 1 && yes)
            ==> (r matches Some(e) && first_in_order(mac_files(strs(file_names@)), e@)),
        mac_files(strs(file_names@)).len() > 1 && !yes ==> r is None,
{
    let ghost names = strs(file_names@);
    let suffix = chars_of(".mac");
    let mut count: usize = 0;
    let mut best: Vec<char> = Vec::new();
    let mut i: usize = 0;
    assert(names.take(0) =~= Seq::<Seq<char>>::empty());
    while i < file_names.len()
        invariant
            i <= file_names.len(),
            names == strs(file_names@),
            suffix@ == ".mac"@,
            count <= i,
            count == mac_files(names.take(i as int)).len(),
            count > 0 ==> first_in_order(mac_files(names.take(i as int)), best@),
        decreases file_names.len() - i,
    {
        let ghost prev = mac_files(names.take(i as int));
        assert(names.take(i + 1).drop_last() =~= names.take(i as int));
        assert(names.take(i + 1).last() == file_names@[i as int]@);
        let x = chars_of(file_names[i].as_str());
        if ends_with(x.as_slice(), suffix.as_slice()) {
            let ghost m = prev.push(x@);
            assert(mac_files(names.take(i + 1)) == m);
            if count == 0 {
                best = x;
                proof {
                    lemma_seq_lt_irrefl(best@);
                    assert(m[0] == best@);
                }
            } else if lt_chars(x.as_slice(), best.as_slice()) {
                proof {
                    assert forall|k: int| 0 <= k < m.len() implies !seq_lt(#[trigger] m[k], x@) by {
                        if k < prev.len() {
                            assert(m[k] == prev[k]);
                            if seq_lt(m[k], x@) {
                                lemma_seq_lt_trans(m[k], x@, best@);
                            }
                        } else {
                            lemma_seq_lt_irrefl(x@);
                        }
                    }
                    assert(m[m.len() - 1] == x@);
                }
                best = x;
            } else {
                proof {
                    let j = choose|j: int| 0 <= j < prev.len() && prev[j] == best@;
                    assert(m[j] == best@);
                    assert forall|k: int| 0 <= k < m.len() implies !seq_lt(#[trigger] m[k], best@) by {
                        if k < prev.len() {
                            assert(m[k] == prev[k]);
                        }
                    }
                }
            }
            count = count + 1;
        } else {
            assert(mac_files(names.take(i + 1)) == prev);
        }
        i += 1;
    }
    assert(names.take(file_names.len() as int) =~= names);
    if count == 0 {
        let mut e = chars_of(pkg);
        push_str(&mut e, ".mac");
        Some(string_of(e.as_slice()))
    } else if count == 1 || yes {
        Some(string_of(best.as_slice()))
    } else {
        None
    }
}

} // verus!
