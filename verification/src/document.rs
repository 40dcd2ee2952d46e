//! The two in-memory representations of a configuration file.
//!
//! [`ConfigFile`] is the ordered form produced by the parser: it keeps every
//! property and section exactly as written, duplicates included.
//! [`ConfigMap`] is the keyed form used for lookup and mutation: an
//! association list whose keys and section names are unique, built from a
//! [`ConfigFile`] by a last-write-wins pass and convertible back with the
//! sections sorted by name.

use vstd::prelude::*;
use vstd::pervasive::VecAdditionalExecFns;
use crate::text::{lex_le, str_lex_le, lemma_lex_le_total, lemma_lex_le_trans};

verus! {

/// Specification-level property: a key and an optional token sequence.
/// `None` stands for a bare key; a present value always has at least one
/// token.
#[verifier::ext_equal]
pub struct PropSpec {
    pub key: Seq<char>,
    pub value: Option<Seq<Seq<char>>>,
}

/// Specification-level section: a name and its properties in order.
#[verifier::ext_equal]
pub struct SectionSpec {
    pub name: Seq<char>,
    pub properties: Seq<PropSpec>,
}

/// Specification-level configuration: global properties, then sections.
#[verifier::ext_equal]
pub struct DocSpec {
    pub properties: Seq<PropSpec>,
    pub sections: Seq<SectionSpec>,
}

/// A single configuration entry.  `value` is `None` for a bare key;
/// otherwise it holds the `;`-separated tokens of the raw value.
#[derive(Debug, Clone, PartialEq)]
pub struct Property {
    pub key: String,
    pub value: Option<Vec<String>>,
}

/// A named group of properties, in the order they appeared.
#[derive(Debug, Clone, PartialEq)]
pub struct Section {
    pub name: String,
    pub properties: Vec<Property>,
}

/// The ordered form of a configuration file: the global properties that
/// precede any section header, then the sections in text order.
#[derive(Debug, Clone, PartialEq)]
pub struct ConfigFile {
    pub properties: Vec<Property>,
    pub sections: Vec<Section>,
}

/// The keyed form of a configuration file.  The same field shapes as
/// [`ConfigFile`], but [`ConfigMap::wf`] asks that keys and section names
/// be unique, so each list behaves as a mapping.
#[derive(Debug, Clone, PartialEq)]
pub struct ConfigMap {
    pub properties: Vec<Property>,
    pub sections: Vec<Section>,
}

impl View for Property {
    type V = PropSpec;

    open spec fn view(&self) -> PropSpec {
        PropSpec { key: self.key@, value: self.value.deep_view() }
    }
}

impl DeepView for Property {
    type V = PropSpec;

    open spec fn deep_view(&self) -> PropSpec {
        self.view()
    }
}

impl View for Section {
    type V = SectionSpec;

    open spec fn view(&self) -> SectionSpec {
        SectionSpec { name: self.name@, properties: self.properties.deep_view() }
    }
}

impl DeepView for Section {
    type V = SectionSpec;

    open spec fn deep_view(&self) -> SectionSpec {
        self.view()
    }
}

impl View for ConfigFile {
    type V = DocSpec;

    open spec fn view(&self) -> DocSpec {
        DocSpec { properties: self.properties.deep_view(), sections: self.sections.deep_view() }
    }
}

impl View for ConfigMap {
    type V = DocSpec;

    open spec fn view(&self) -> DocSpec {
        DocSpec { properties: self.properties.deep_view(), sections: self.sections.deep_view() }
    }
}

/// No two properties share a key.
pub open spec fn unique_prop_keys(ps: Seq<PropSpec>) -> bool {
    forall|i: int, j: int| 0 <= i < j < ps.len() ==> ps[i].key != ps[j].key
}

/// No two sections share a name.
pub open spec fn unique_section_names(ss: Seq<SectionSpec>) -> bool {
    forall|i: int, j: int| 0 <= i < j < ss.len() ==> ss[i].name != ss[j].name
}

/// The mapping a property list stands for: later entries overwrite earlier
/// ones with the same key.
pub open spec fn props_map(ps: Seq<PropSpec>) -> Map<Seq<char>, Option<Seq<Seq<char>>>>
    decreases ps.len(),
{
    if ps.len() == 0 {
        Map::empty()
    } else {
        props_map(ps.drop_last()).insert(ps.last().key, ps.last().value)
    }
}

/// The mapping a section list stands for: each name maps to the mapping of
/// that section's properties, later sections overwriting earlier ones whole.
pub open spec fn secs_map(ss: Seq<SectionSpec>) -> Map<
    Seq<char>,
    Map<Seq<char>, Option<Seq<Seq<char>>>>,
>
    decreases ss.len(),
{
    if ss.len() == 0 {
        Map::empty()
    } else {
        secs_map(ss.drop_last()).insert(ss.last().name, props_map(ss.last().properties))
    }
}

pub proof fn lemma_props_map_push(ps: Seq<PropSpec>, p: PropSpec)
    ensures
        props_map(ps.push(p)) == props_map(ps).insert(p.key, p.value),
{
    assert(ps.push(p).drop_last() =~= ps);
    assert(ps.push(p).last() == p);
}

pub proof fn lemma_secs_map_push(ss: Seq<SectionSpec>, s: SectionSpec)
    ensures
        secs_map(ss.push(s)) == secs_map(ss).insert(s.name, props_map(s.properties)),
{
    assert(ss.push(s).drop_last() =~= ss);
    assert(ss.push(s).last() == s);
}

/// A key is in the mapping exactly when some entry bears it.
pub proof fn lemma_props_map_dom(ps: Seq<PropSpec>)
    ensures
        forall|k: Seq<char>|
            #[trigger] props_map(ps).contains_key(k) <==> (exists|i: int|
                0 <= i < ps.len() && ps[i].key == k),
    decreases ps.len(),
{
    if ps.len() > 0 {
        lemma_props_map_dom(ps.drop_last());
        assert forall|k: Seq<char>| #[trigger] props_map(ps).contains_key(k) implies (exists|i: int|
            0 <= i < ps.len() && ps[i].key == k) by {
            if k == ps.last().key {
                assert(ps[ps.len() - 1].key == k);
            } else {
                assert(props_map(ps.drop_last()).contains_key(k));
                let i = choose|i: int| 0 <= i < ps.drop_last().len() && ps.drop_last()[i].key == k;
                assert(ps.drop_last()[i] == ps[i]);
                assert(ps[i].key == k);
            }
        }
        assert forall|k: Seq<char>| (exists|i: int|
            0 <= i < ps.len() && ps[i].key == k) implies #[trigger] props_map(ps).contains_key(
            k,
        ) by {
            let i = choose|i: int| 0 <= i < ps.len() && ps[i].key == k;
            if i == ps.len() - 1 {
            } else {
                assert(ps.drop_last()[i] == ps[i]);
                assert(ps.drop_last()[i].key == k);
                assert(props_map(ps.drop_last()).contains_key(k));
            }
        }
    }
}

/// With unique keys, each entry is the one its key maps to.
pub proof fn lemma_props_map_at(ps: Seq<PropSpec>, i: int)
    requires
        unique_prop_keys(ps),
        0 <= i < ps.len(),
    ensures
        props_map(ps).contains_key(ps[i].key),
        props_map(ps)[ps[i].key] == ps[i].value,
    decreases ps.len(),
{
    if i == ps.len() - 1 {
    } else {
        assert(unique_prop_keys(ps.drop_last())) by {
            assert forall|a: int, b: int| 0 <= a < b < ps.drop_last().len()
                implies ps.drop_last()[a].key != ps.drop_last()[b].key by {
                assert(ps[a].key != ps[b].key);
            }
        }
        lemma_props_map_at(ps.drop_last(), i);
        assert(ps.drop_last()[i] == ps[i]);
        assert(ps[i].key != ps.last().key) by {
            assert(ps[i].key != ps[ps.len() - 1].key);
        }
    }
}

/// A name is in the mapping exactly when some section bears it.
pub proof fn lemma_secs_map_dom(ss: Seq<SectionSpec>)
    ensures
        forall|n: Seq<char>|
            #[trigger] secs_map(ss).contains_key(n) <==> (exists|i: int|
                0 <= i < ss.len() && ss[i].name == n),
    decreases ss.len(),
{
    if ss.len() > 0 {
        lemma_secs_map_dom(ss.drop_last());
        assert forall|n: Seq<char>| #[trigger] secs_map(ss).contains_key(n) implies (exists|i: int|
            0 <= i < ss.len() && ss[i].name == n) by {
            if n == ss.last().name {
                assert(ss[ss.len() - 1].name == n);
            } else {
                assert(secs_map(ss.drop_last()).contains_key(n));
                let i = choose|i: int|
                    0 <= i < ss.drop_last().len() && ss.drop_last()[i].name == n;
                assert(ss.drop_last()[i] == ss[i]);
                assert(ss[i].name == n);
            }
        }
        assert forall|n: Seq<char>| (exists|i: int|
            0 <= i < ss.len() && ss[i].name == n) implies #[trigger] secs_map(ss).contains_key(
            n,
        ) by {
            let i = choose|i: int| 0 <= i < ss.len() && ss[i].name == n;
            if i == ss.len() - 1 {
            } else {
                assert(ss.drop_last()[i] == ss[i]);
                assert(ss.drop_last()[i].name == n);
                assert(secs_map(ss.drop_last()).contains_key(n));
            }
        }
    }
}

/// With unique names, each section is the one its name maps to.
pub proof fn lemma_secs_map_at(ss: Seq<SectionSpec>, i: int)
    requires
        unique_section_names(ss),
        0 <= i < ss.len(),
    ensures
        secs_map(ss).contains_key(ss[i].name),
        secs_map(ss)[ss[i].name] == props_map(ss[i].properties),
    decreases ss.len(),
{
    if i == ss.len() - 1 {
    } else {
        assert(unique_section_names(ss.drop_last())) by {
            assert forall|a: int, b: int| 0 <= a < b < ss.drop_last().len()
                implies ss.drop_last()[a].name != ss.drop_last()[b].name by {
                assert(ss[a].name != ss[b].name);
            }
        }
        lemma_secs_map_at(ss.drop_last(), i);
        assert(ss.drop_last()[i] == ss[i]);
        assert(ss[i].name != ss[ss.len() - 1].name);
    }
}

impl ConfigMap {
    /// The keyed form is well formed when keys and names are unique, so
    /// that each list is a faithful picture of the mapping it stands for.
    pub open spec fn wf(self) -> bool {
        &&& unique_prop_keys(self@.properties)
        &&& unique_section_names(self@.sections)
        &&& forall|i: int|
            0 <= i < self@.sections.len() ==> unique_prop_keys(
                #[trigger] self@.sections[i].properties,
            )
    }
}

/// Updating an entry in place with a property of the same key updates the
/// mapping at that key.
pub proof fn lemma_props_map_update(ps: Seq<PropSpec>, i: int, p: PropSpec)
    requires
        unique_prop_keys(ps),
        0 <= i < ps.len(),
        ps[i].key == p.key,
    ensures
        unique_prop_keys(ps.update(i, p)),
        props_map(ps.update(i, p)) == props_map(ps).insert(p.key, p.value),
{
    let l2 = ps.update(i, p);
    assert forall|a: int, b: int| 0 <= a < b < l2.len() implies l2[a].key != l2[b].key by {
        assert(ps[a].key != ps[b].key);
    }
    lemma_props_map_dom(ps);
    lemma_props_map_dom(l2);
    let m1i = props_map(ps).insert(p.key, p.value);
    let m2 = props_map(l2);
    assert forall|k: Seq<char>| #[trigger] m2.contains_key(k) implies m1i.contains_key(k) && m2[k]
        == m1i[k] by {
        let j = choose|j: int| 0 <= j < l2.len() && l2[j].key == k;
        lemma_props_map_at(l2, j);
        if k == p.key {
            assert(l2[i].key == p.key);
            assert(j == i);
            assert(m2[k] == p.value);
        } else {
            assert(j != i);
            lemma_props_map_at(ps, j);
            assert(ps[j].key == k);
        }
    }
    assert forall|k: Seq<char>| #[trigger] m1i.contains_key(k) implies m2.contains_key(k) by {
        if k == p.key {
            assert(l2[i].key == k);
        } else {
            let j = choose|j: int| 0 <= j < ps.len() && ps[j].key == k;
            assert(l2[j].key == k);
        }
    }
    assert(m2 =~= m1i);
}

/// Updating a section in place with one of the same name updates the
/// mapping at that name.
pub proof fn lemma_secs_map_update(ss: Seq<SectionSpec>, i: int, s: SectionSpec)
    requires
        unique_section_names(ss),
        0 <= i < ss.len(),
        ss[i].name == s.name,
    ensures
        unique_section_names(ss.update(i, s)),
        secs_map(ss.update(i, s)) == secs_map(ss).insert(s.name, props_map(s.properties)),
{
    let l2 = ss.update(i, s);
    assert forall|a: int, b: int| 0 <= a < b < l2.len() implies l2[a].name != l2[b].name by {
        assert(ss[a].name != ss[b].name);
    }
    lemma_secs_map_dom(ss);
    lemma_secs_map_dom(l2);
    let m1i = secs_map(ss).insert(s.name, props_map(s.properties));
    let m2 = secs_map(l2);
    assert forall|n: Seq<char>| #[trigger] m2.contains_key(n) implies m1i.contains_key(n) && m2[n]
        == m1i[n] by {
        let j = choose|j: int| 0 <= j < l2.len() && l2[j].name == n;
        lemma_secs_map_at(l2, j);
        if n == s.name {
            assert(l2[i].name == s.name);
            assert(j == i);
        } else {
            assert(j != i);
            lemma_secs_map_at(ss, j);
            assert(ss[j].name == n);
        }
    }
    assert forall|n: Seq<char>| #[trigger] m1i.contains_key(n) implies m2.contains_key(n) by {
        if n == s.name {
            assert(l2[i].name == n);
        } else {
            let j = choose|j: int| 0 <= j < ss.len() && ss[j].name == n;
            assert(l2[j].name == n);
        }
    }
    assert(m2 =~= m1i);
}

/// An owned copy of a token vector with the same view.
pub fn clone_tokens(toks: &Vec<String>) -> (r: Vec<String>)
    ensures
        r.deep_view() == toks.deep_view(),
{
    let mut r: Vec<String> = Vec::new();
    let mut i: usize = 0;
    while i < toks.len()
        invariant
            i <= toks@.len(),
            r.deep_view() == toks.deep_view().take(i as int),
        decreases toks@.len() - i,
    {
        let ghost dv = toks.deep_view();
        r.push(toks[i].clone());
        proof {
            assert(r.deep_view() =~= dv.take(i as int).push(dv[i as int]));
            assert(dv.take(i as int).push(dv[i as int]) =~= dv.take(i + 1));
        }
        i = i + 1;
    }
    proof {
        assert(toks.deep_view().take(toks@.len() as int) =~= toks.deep_view());
    }
    r
}

impl Property {
    /// An owned copy with the same view.
    pub fn duplicate(&self) -> (r: Property)
        ensures
            r@ == self@,
    {
        let value = match &self.value {
            Some(toks) => Some(clone_tokens(toks)),
            None => None,
        };
        Property { key: self.key.clone(), value }
    }
}

/// An owned copy of a property list with the same view.
pub fn duplicate_props(props: &Vec<Property>) -> (r: Vec<Property>)
    ensures
        r.deep_view() == props.deep_view(),
{
    let mut r: Vec<Property> = Vec::new();
    let mut i: usize = 0;
    while i < props.len()
        invariant
            i <= props@.len(),
            r.deep_view() == props.deep_view().take(i as int),
        decreases props@.len() - i,
    {
        let ghost dv = props.deep_view();
        r.push(props[i].duplicate());
        proof {
            assert(r.deep_view() =~= dv.take(i as int).push(dv[i as int]));
            assert(dv.take(i as int).push(dv[i as int]) =~= dv.take(i + 1));
        }
        i = i + 1;
    }
    proof {
        assert(props.deep_view().take(props@.len() as int) =~= props.deep_view());
    }
    r
}

impl Section {
    /// An owned copy with the same view.
    pub fn duplicate(&self) -> (r: Section)
        ensures
            r@ == self@,
    {
        Section { name: self.name.clone(), properties: duplicate_props(&self.properties) }
    }
}

/// Position of the first property bearing `key`, if any.
pub fn find_key(list: &Vec<Property>, key: &String) -> (r: Option<usize>)
    ensures
        (match r {
            Some(i) => i < list.deep_view().len() && list.deep_view()[i as int].key == key@,
            None => forall|j: int|
                0 <= j < list.deep_view().len() ==> list.deep_view()[j].key != key@,
        }),
{
    let mut j: usize = 0;
    while j < list.len()
        invariant
            j <= list@.len(),
            forall|t: int| 0 <= t < j ==> list.deep_view()[t].key != key@,
        decreases list@.len() - j,
    {
        if list[j].key == *key {
            return Some(j);
        }
        j = j + 1;
    }
    None
}

/// Inserts `p` into an association list, last write wins: an entry with the
/// same key is overwritten in place, otherwise `p` is appended.
pub fn insert_prop(list: &mut Vec<Property>, p: Property)
    requires
        unique_prop_keys(old(list).deep_view()),
    ensures
        unique_prop_keys(final(list).deep_view()),
        props_map(final(list).deep_view()) == props_map(old(list).deep_view()).insert(
            p@.key,
            p@.value,
        ),
{
    let ghost l1 = old(list).deep_view();
    let ghost pv = p@;
    match find_key(list, &p.key) {
        Some(i) => {
            list.set(i, p);
            proof {
                assert(list.deep_view() =~= l1.update(i as int, pv));
                lemma_props_map_update(l1, i as int, pv);
            }
        }
        None => {
            list.push(p);
            proof {
                assert(list.deep_view() =~= l1.push(pv));
                lemma_props_map_push(l1, pv);
                assert forall|a: int, b: int| 0 <= a < b < l1.push(pv).len() implies l1.push(
                    pv,
                )[a].key != l1.push(pv)[b].key by {
                    if b < l1.len() {
                        assert(l1[a].key != l1[b].key);
                    } else {
                        assert(l1.push(pv)[a] == l1[a]);
                        assert(l1[a].key != pv.key);
                    }
                }
            }
        }
    }
}

/// Position of the first section bearing `name`, if any.
pub fn find_name(list: &Vec<Section>, name: &String) -> (r: Option<usize>)
    ensures
        (match r {
            Some(i) => i < list.deep_view().len() && list.deep_view()[i as int].name == name@,
            None => forall|j: int|
                0 <= j < list.deep_view().len() ==> list.deep_view()[j].name != name@,
        }),
{
    let mut j: usize = 0;
    while j < list.len()
        invariant
            j <= list@.len(),
            forall|t: int| 0 <= t < j ==> list.deep_view()[t].name != name@,
        decreases list@.len() - j,
    {
        if list[j].name == *name {
            return Some(j);
        }
        j = j + 1;
    }
    None
}

/// Inserts a section into an association list, last write wins: a section
/// of the same name is replaced whole, never merged.
pub fn insert_section(list: &mut Vec<Section>, s: Section)
    requires
        unique_section_names(old(list).deep_view()),
    ensures
        unique_section_names(final(list).deep_view()),
        secs_map(final(list).deep_view()) == secs_map(old(list).deep_view()).insert(
            s@.name,
            props_map(s@.properties),
        ),
        forall|i: int|
            0 <= i < final(list).deep_view().len() ==> (#[trigger] final(list).deep_view()[i]
                == s@ || exists|j: int|
                0 <= j < old(list).deep_view().len() && final(list).deep_view()[i] == old(
                    list,
                ).deep_view()[j]),
{
    let ghost l1 = old(list).deep_view();
    let ghost sv = s@;
    if let Some(idx) = find_name(list, &s.name) {
        list.set(idx, s);
        proof {
            assert(list.deep_view() =~= l1.update(idx as int, sv));
            lemma_secs_map_update(l1, idx as int, sv);
            assert forall|i: int| 0 <= i < list.deep_view().len() implies (
            #[trigger] list.deep_view()[i] == sv || exists|j: int|
                0 <= j < l1.len() && list.deep_view()[i] == l1[j]) by {
                if i != idx {
                    assert(list.deep_view()[i] == l1[i]);
                }
            }
        }
    } else {
        list.push(s);
        proof {
            assert(list.deep_view() =~= l1.push(sv));
            lemma_secs_map_push(l1, sv);
            assert forall|a: int, b: int| 0 <= a < b < l1.push(sv).len() implies l1.push(
                sv,
            )[a].name != l1.push(sv)[b].name by {
                if b < l1.len() {
                    assert(l1[a].name != l1[b].name);
                } else {
                    assert(l1.push(sv)[a] == l1[a]);
                    assert(l1[a].name != sv.name);
                }
            }
            assert forall|i: int| 0 <= i < list.deep_view().len() implies (
            #[trigger] list.deep_view()[i] == sv || exists|j: int|
                0 <= j < l1.len() && list.deep_view()[i] == l1[j]) by {
                if i < l1.len() {
                    assert(list.deep_view()[i] == l1[i]);
                }
            }
        }
    }
}

impl ConfigFile {
    /// Projects the ordered file onto its keyed form.  Properties and
    /// sections are inserted in text order; a later duplicate key
    /// overwrites the earlier value, and a later duplicate section name
    /// replaces the earlier section's whole mapping.
    pub fn to_map(&self) -> (m: ConfigMap)
        ensures
            m.wf(),
            props_map(m@.properties) == props_map(self@.properties),
            secs_map(m@.sections) == secs_map(self@.sections),
    {
        let ghost pdv = self.properties.deep_view();
        let mut props: Vec<Property> = Vec::new();
        let mut i: usize = 0;
        while i < self.properties.len()
            invariant
                i <= self.properties@.len(),
                pdv == self.properties.deep_view(),
                unique_prop_keys(props.deep_view()),
                props_map(props.deep_view()) == props_map(pdv.take(i as int)),
            decreases self.properties@.len() - i,
        {
            let p = self.properties[i].duplicate();
            proof {
                lemma_props_map_push(pdv.take(i as int), pdv[i as int]);
                assert(pdv.take(i as int).push(pdv[i as int]) =~= pdv.take(i + 1));
            }
            insert_prop(&mut props, p);
            i = i + 1;
        }
        proof {
            assert(pdv.take(self.properties@.len() as int) =~= pdv);
        }
        let ghost sdv = self.sections.deep_view();
        let mut secs: Vec<Section> = Vec::new();
        let mut k: usize = 0;
        while k < self.sections.len()
            invariant
                k <= self.sections@.len(),
                sdv == self.sections.deep_view(),
                unique_section_names(secs.deep_view()),
                forall|t: int|
                    0 <= t < secs.deep_view().len() ==> unique_prop_keys(
                        #[trigger] secs.deep_view()[t].properties,
                    ),
                secs_map(secs.deep_view()) == secs_map(sdv.take(k as int)),
            decreases self.sections@.len() - k,
        {
            let ghost qdv = self.sections[k as int].properties.deep_view();
            let mut sprops: Vec<Property> = Vec::new();
            let mut j: usize = 0;
            while j < self.sections[k].properties.len()
                invariant
                    k < self.sections@.len(),
                    j <= self.sections[k as int].properties@.len(),
                    qdv == self.sections[k as int].properties.deep_view(),
                    unique_prop_keys(sprops.deep_view()),
                    props_map(sprops.deep_view()) == props_map(qdv.take(j as int)),
                decreases self.sections[k as int].properties@.len() - j,
            {
                let p = self.sections[k].properties[j].duplicate();
                proof {
                    lemma_props_map_push(qdv.take(j as int), qdv[j as int]);
                    assert(qdv.take(j as int).push(qdv[j as int]) =~= qdv.take(j + 1));
                }
                insert_prop(&mut sprops, p);
                j = j + 1;
            }
            proof {
                assert(qdv.take(self.sections[k as int].properties@.len() as int) =~= qdv);
            }
            let ns = Section { name: self.sections[k].name.clone(), properties: sprops };
            let ghost old_secs = secs.deep_view();
            proof {
                lemma_secs_map_push(sdv.take(k as int), sdv[k as int]);
                assert(sdv.take(k as int).push(sdv[k as int]) =~= sdv.take(k + 1));
                assert(sdv[k as int].properties == qdv);
            }
            insert_section(&mut secs, ns);
            k = k + 1;
        }
        proof {
            assert(sdv.take(self.sections@.len() as int) =~= sdv);
        }
        ConfigMap { properties: props, sections: secs }
    }
}

/// The sections stand in lexicographic order of their names.
pub open spec fn sorted_by_name(ss: Seq<SectionSpec>) -> bool {
    forall|i: int, j: int| 0 <= i < j < ss.len() ==> lex_le(ss[i].name, ss[j].name)
}

/// Inserts a section into a name-sorted list, keeping it sorted.
pub fn insert_sorted(list: &mut Vec<Section>, s: Section)
    requires
        sorted_by_name(old(list).deep_view()),
    ensures
        sorted_by_name(final(list).deep_view()),
        final(list).deep_view().to_multiset() == old(list).deep_view().to_multiset().insert(s@),
{
    let ghost l1 = old(list).deep_view();
    let ghost sv = s@;
    let mut i: usize = 0;
    while i < list.len() && !str_lex_le(s.name.as_str(), list[i].name.as_str())
        invariant
            i <= list@.len(),
            list.deep_view() == l1,
            sv == s@,
            forall|t: int| 0 <= t < i ==> !lex_le(sv.name, #[trigger] l1[t].name),
        decreases list@.len() - i,
    {
        i = i + 1;
    }
    list.insert(i, s);
    proof {
        let l2 = list.deep_view();
        assert(l2 =~= l1.insert(i as int, sv));
        vstd::seq_lib::to_multiset_insert(l1, i as int, sv);
        assert forall|a: int, b: int| 0 <= a < b < l2.len() implies lex_le(
            l2[a].name,
            l2[b].name,
        ) by {
            if b < i {
                assert(l2[a] == l1[a] && l2[b] == l1[b]);
            } else if a > i {
                assert(l2[a] == l1[a - 1] && l2[b] == l1[b - 1]);
            } else if a < i && b == i {
                assert(l2[a] == l1[a]);
                lemma_lex_le_total(sv.name, l1[a].name);
            } else if a == i {
                assert(l2[b] == l1[b - 1]);
                assert(lex_le(sv.name, l1[i as int].name));
                if b - 1 > i {
                    assert(lex_le(l1[i as int].name, l1[b - 1].name));
                    lemma_lex_le_trans(sv.name, l1[i as int].name, l1[b - 1].name);
                }
            } else {
                assert(a < i && b > i);
                assert(l2[a] == l1[a] && l2[b] == l1[b - 1]);
                if a == b - 1 {
                    assert(false);
                } else {
                    assert(lex_le(l1[a].name, l1[b - 1].name));
                }
            }
        }
    }
}

impl ConfigMap {
    /// Converts the keyed form back into an ordered file.  The global
    /// properties keep their stored order; the sections come out sorted
    /// lexicographically by name, whatever order they were stored in.
    pub fn to_file(&self) -> (f: ConfigFile)
        ensures
            f@.properties == self@.properties,
            sorted_by_name(f@.sections),
            f@.sections.to_multiset() == self@.sections.to_multiset(),
    {
        broadcast use vstd::seq_lib::group_to_multiset_ensures;

        let properties = duplicate_props(&self.properties);
        let ghost sdv = self.sections.deep_view();
        let mut sections: Vec<Section> = Vec::new();
        let mut i: usize = 0;
        proof {
            assert(sdv.take(0).to_multiset() =~= Seq::<SectionSpec>::empty().to_multiset());
        }
        while i < self.sections.len()
            invariant
                i <= self.sections@.len(),
                sdv == self.sections.deep_view(),
                sorted_by_name(sections.deep_view()),
                sections.deep_view().to_multiset() == sdv.take(i as int).to_multiset(),
            decreases self.sections@.len() - i,
        {
            let s = self.sections[i].duplicate();
            proof {
                assert(s@ == sdv[i as int]);
                assert(sdv.take(i as int).push(sdv[i as int]) =~= sdv.take(i + 1));
                vstd::seq_lib::to_multiset_build(sdv.take(i as int), sdv[i as int]);
            }
            insert_sorted(&mut sections, s);
            i = i + 1;
        }
        proof {
            assert(sdv.take(self.sections@.len() as int) =~= sdv);
        }
        ConfigFile { properties, sections }
    }
}

} // verus!
