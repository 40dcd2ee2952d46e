//! Keeping a keyed list of printers and their nozzles up to date.  The
//! list has the same shape as the keyed form's properties: each key is a
//! printer name, each value the nozzles seen for it.

use vstd::prelude::*;
use crate::document::{
    clone_tokens, find_key, insert_prop, lemma_props_map_at, lemma_props_map_dom, props_map,
    unique_prop_keys, Property, PropSpec,
};

verus! {

/// The value recorded for a printer once a nozzle is noted: a missing or
/// bare entry becomes the one-nozzle list; a list gains the nozzle only
/// when it is not already there.
pub open spec fn with_nozzle(
    cur: Option<Option<Seq<Seq<char>>>>,
    nozzle: Seq<char>,
) -> Option<Seq<Seq<char>>> {
    match cur {
        Some(Some(toks)) => if toks.contains(nozzle) {
            Some(toks)
        } else {
            Some(toks.push(nozzle))
        },
        _ => Some(seq![nozzle]),
    }
}

/// What `k` maps to in the list's mapping, if anything.
pub open spec fn map_entry(ps: Seq<PropSpec>, k: Seq<char>) -> Option<Option<Seq<Seq<char>>>> {
    if props_map(ps).contains_key(k) {
        Some(props_map(ps)[k])
    } else {
        None
    }
}

/// Whether some token of `toks` reads exactly `x`.
fn contains_token(toks: &Vec<String>, x: &String) -> (b: bool)
    ensures
        b == toks.deep_view().contains(x@),
{
    let mut i: usize = 0;
    while i < toks.len()
        invariant
            i <= toks@.len(),
            forall|t: int| 0 <= t < i ==> toks.deep_view()[t] != x@,
        decreases toks@.len() - i,
    {
        if toks[i] == *x {
            proof {
                assert(toks.deep_view()[i as int] == x@);
            }
            return true;
        }
        i = i + 1;
    }
    proof {
        assert forall|t: int| 0 <= t < toks.deep_view().len() implies toks.deep_view()[t] != x@
            by {}
    }
    false
}

/// Records that printer `name` has the nozzle `nozzle`: a new printer is
/// added with that one nozzle, a known printer gains the nozzle unless it
/// is already listed.
pub fn has_printer_and_nozzle(printers: &mut Vec<Property>, name: &str, nozzle: &str)
    requires
        unique_prop_keys(old(printers).deep_view()),
    ensures
        unique_prop_keys(final(printers).deep_view()),
        props_map(final(printers).deep_view()) == props_map(old(printers).deep_view()).insert(
            name@,
            with_nozzle(map_entry(old(printers).deep_view(), name@), nozzle@),
        ),
{
    let ghost l1 = old(printers).deep_view();
    let name_s = name.to_owned();
    let nozzle_s = nozzle.to_owned();
    let np: Property = match find_key(printers, &name_s) {
        Some(i) => {
            proof {
                lemma_props_map_at(l1, i as int);
            }
            match &printers[i].value {
                Some(toks) => {
                    if contains_token(toks, &nozzle_s) {
                        proof {
                            let m = props_map(l1);
                            assert(with_nozzle(map_entry(l1, name@), nozzle@) == l1[i as int].value);
                            assert(m.insert(name@, l1[i as int].value) =~= m);
                        }
                        return ;
                    }
                    let mut nt = clone_tokens(toks);
                    nt.push(nozzle_s);
                    proof {
                        assert(nt.deep_view() =~= l1[i as int].value->Some_0.push(nozzle@));
                    }
                    Property { key: name_s, value: Some(nt) }
                }
                None => {
                    let mut one: Vec<String> = Vec::new();
                    one.push(nozzle_s);
                    proof {
                        assert(one.deep_view() =~= seq![nozzle@]);
                    }
                    Property { key: name_s, value: Some(one) }
                }
            }
        }
        None => {
            proof {
                lemma_props_map_dom(l1);
            }
            let mut one: Vec<String> = Vec::new();
            one.push(nozzle_s);
            proof {
                assert(one.deep_view() =~= seq![nozzle@]);
            }
            Property { key: name_s, value: Some(one) }
        }
    };
    proof {
        assert(np@.value == with_nozzle(map_entry(l1, name@), nozzle@));
    }
    insert_prop(printers, np);
}

} // verus!
