//! The formatter: the ordered [`ConfigFile`] form back to text.
//!
//! Every property is written as `<key> = <value>\n`, with the value tokens
//! rejoined on `;` and a bare key written with an empty value.  Each
//! section is preceded by one blank line, then `[<name>]\n`, then its
//! properties.  One shared routine writes a property, so the rules are the
//! same for global and section properties.

use vstd::prelude::*;
use vstd::string::StringExecFns;
use crate::document::{ConfigFile, DocSpec, PropSpec, Property, Section, SectionSpec};
use crate::text::join;

verus! {

/// The characters of a property's raw value: the tokens joined with `;`,
/// or nothing for a bare key.
pub open spec fn value_text(v: Option<Seq<Seq<char>>>) -> Seq<char> {
    match v {
        Some(toks) => join(toks, ';'),
        None => Seq::empty(),
    }
}

/// One property line: `<key> = <value>\n`.
pub open spec fn prop_text(p: PropSpec) -> Seq<char> {
    p.key + seq![' ', '=', ' '] + value_text(p.value) + seq!['\n']
}

/// A property list, one line per property.
pub open spec fn props_text(ps: Seq<PropSpec>) -> Seq<char>
    decreases ps.len(),
{
    if ps.len() == 0 {
        Seq::empty()
    } else {
        prop_text(ps[0]) + props_text(ps.drop_first())
    }
}

/// One section: a blank line, the bracketed header, its properties.
pub open spec fn section_text(s: SectionSpec) -> Seq<char> {
    seq!['\n', '['] + s.name + seq![']', '\n'] + props_text(s.properties)
}

/// A section list, in order.
pub open spec fn sections_text(ss: Seq<SectionSpec>) -> Seq<char>
    decreases ss.len(),
{
    if ss.len() == 0 {
        Seq::empty()
    } else {
        section_text(ss[0]) + sections_text(ss.drop_first())
    }
}

/// The whole document: global properties first, then the sections.
pub open spec fn doc_text(d: DocSpec) -> Seq<char> {
    props_text(d.properties) + sections_text(d.sections)
}

pub proof fn lemma_join_push(toks: Seq<Seq<char>>, x: Seq<char>, sep: char)
    requires
        toks.len() >= 1,
    ensures
        join(toks.push(x), sep) == join(toks, sep) + seq![sep] + x,
    decreases toks.len(),
{
    if toks.len() == 1 {
        assert(toks.push(x).drop_first() =~= seq![x]);
        assert(join(seq![x], sep) == x);
        assert(join(toks.push(x), sep) =~= join(toks, sep) + seq![sep] + x);
    } else {
        lemma_join_push(toks.drop_first(), x, sep);
        assert(toks.push(x).drop_first() =~= toks.drop_first().push(x));
        assert(join(toks.push(x), sep) =~= join(toks, sep) + seq![sep] + x);
    }
}

pub proof fn lemma_props_text_push(ps: Seq<PropSpec>, p: PropSpec)
    ensures
        props_text(ps.push(p)) == props_text(ps) + prop_text(p),
    decreases ps.len(),
{
    if ps.len() == 0 {
        assert(ps.push(p).len() == 1);
        assert(ps.push(p)[0] == p);
        assert(ps.push(p).drop_first() =~= Seq::<PropSpec>::empty());
        assert(props_text(ps.push(p).drop_first()) == Seq::<char>::empty());
        assert(props_text(ps.push(p)) == prop_text(p) + Seq::<char>::empty());
        assert(props_text(ps) == Seq::<char>::empty());
        assert(prop_text(p) + Seq::<char>::empty() =~= Seq::<char>::empty() + prop_text(p));
        assert(props_text(ps.push(p)) =~= props_text(ps) + prop_text(p));
    } else {
        lemma_props_text_push(ps.drop_first(), p);
        assert(ps.push(p).drop_first() =~= ps.drop_first().push(p));
        assert(ps.push(p)[0] == ps[0]);
        assert(props_text(ps.push(p)) == prop_text(ps[0]) + (props_text(ps.drop_first())
            + prop_text(p)));
        assert(prop_text(ps[0]) + (props_text(ps.drop_first()) + prop_text(p)) =~= (prop_text(
            ps[0],
        ) + props_text(ps.drop_first())) + prop_text(p));
        assert(props_text(ps.push(p)) =~= props_text(ps) + prop_text(p));
    }
}

pub proof fn lemma_sections_text_push(ss: Seq<SectionSpec>, s: SectionSpec)
    ensures
        sections_text(ss.push(s)) == sections_text(ss) + section_text(s),
    decreases ss.len(),
{
    if ss.len() == 0 {
        assert(ss.push(s).len() == 1);
        assert(ss.push(s)[0] == s);
        assert(ss.push(s).drop_first() =~= Seq::<SectionSpec>::empty());
        assert(sections_text(ss.push(s).drop_first()) == Seq::<char>::empty());
        assert(sections_text(ss.push(s)) == section_text(s) + Seq::<char>::empty());
        assert(sections_text(ss) == Seq::<char>::empty());
        assert(section_text(s) + Seq::<char>::empty() =~= Seq::<char>::empty() + section_text(s));
        assert(sections_text(ss.push(s)) =~= sections_text(ss) + section_text(s));
    } else {
        lemma_sections_text_push(ss.drop_first(), s);
        assert(ss.push(s).drop_first() =~= ss.drop_first().push(s));
        assert(ss.push(s)[0] == ss[0]);
        assert(sections_text(ss.push(s)) == section_text(ss[0]) + (sections_text(ss.drop_first())
            + section_text(s)));
        assert(section_text(ss[0]) + (sections_text(ss.drop_first()) + section_text(s))
            =~= (section_text(ss[0]) + sections_text(ss.drop_first())) + section_text(s));
        assert(sections_text(ss.push(s)) =~= sections_text(ss) + section_text(s));
    }
}

/// Appends the tokens joined with `;` between each pair.
fn append_tokens(out: &mut String, toks: &Vec<String>)
    ensures
        final(out)@ == old(out)@ + join(toks.deep_view(), ';'),
{
    let ghost base = old(out)@;
    let ghost dv = toks.deep_view();
    let mut i: usize = 0;
    while i < toks.len()
        invariant
            i <= toks@.len(),
            dv == toks.deep_view(),
            base == old(out)@,
            i == 0 ==> out@ == base,
            i >= 1 ==> out@ == base + join(dv.take(i as int), ';'),
        decreases toks@.len() - i,
    {
        if i > 0 {
            out.append(";");
        }
        out.append(toks[i].as_str());
        proof {
            reveal_strlit(";");
            assert(";"@ =~= seq![';']);
            if i == 0 {
                assert(dv.take(1) =~= seq![dv[0]]);
                assert(join(dv.take(1), ';') == dv[0]);
                assert(out@ =~= base + join(dv.take(1), ';'));
            } else {
                lemma_join_push(dv.take(i as int), dv[i as int], ';');
                assert(dv.take(i as int).push(dv[i as int]) =~= dv.take(i + 1));
                assert(out@ =~= base + join(dv.take(i + 1), ';'));
            }
        }
        i = i + 1;
    }
    proof {
        if toks@.len() == 0 {
            assert(join(dv, ';') == Seq::<char>::empty());
            assert(out@ =~= base + join(dv, ';'));
        } else {
            assert(dv.take(toks@.len() as int) =~= dv);
        }
    }
}

/// Appends one property line `<key> = <value>\n`; a bare key gets an
/// empty value.
pub fn append_property(out: &mut String, prop: &Property)
    ensures
        final(out)@ == old(out)@ + prop_text(prop@),
{
    let ghost base = old(out)@;
    out.append(prop.key.as_str());
    out.append(" = ");
    match &prop.value {
        Some(toks) => {
            append_tokens(out, toks);
        }
        None => {}
    }
    out.append("\n");
    proof {
        reveal_strlit(" = ");
        reveal_strlit("\n");
        assert(" = "@ =~= seq![' ', '=', ' ']);
        assert("\n"@ =~= seq!['\n']);
        assert(out@ =~= base + prop_text(prop@));
    }
}

/// Appends a blank line, the header `[<name>]`, then the section's
/// properties.
pub fn append_section(out: &mut String, section: &Section)
    ensures
        final(out)@ == old(out)@ + section_text(section@),
{
    let ghost base = old(out)@;
    out.append("\n[");
    out.append(section.name.as_str());
    out.append("]\n");
    proof {
        reveal_strlit("\n[");
        reveal_strlit("]\n");
        assert("\n["@ =~= seq!['\n', '[']);
        assert("]\n"@ =~= seq![']', '\n']);
    }
    let ghost head = out@;
    let ghost dv = section.properties.deep_view();
    let mut i: usize = 0;
    while i < section.properties.len()
        invariant
            i <= section.properties@.len(),
            dv == section.properties.deep_view(),
            out@ == head + props_text(dv.take(i as int)),
        decreases section.properties@.len() - i,
    {
        append_property(out, &section.properties[i]);
        proof {
            lemma_props_text_push(dv.take(i as int), dv[i as int]);
            assert(dv.take(i as int).push(dv[i as int]) =~= dv.take(i + 1));
            assert(out@ =~= head + props_text(dv.take(i + 1)));
        }
        i = i + 1;
    }
    proof {
        assert(dv.take(section.properties@.len() as int) =~= dv);
        assert(out@ =~= base + section_text(section@));
    }
}

impl ConfigFile {
    /// Appends the textual form of the whole file: every global property
    /// first, then each section in order, preceded by one blank line.
    /// Formatting never fails and writes nothing but the appended text.
    pub fn format(&self, out: &mut String)
        ensures
            final(out)@ == old(out)@ + doc_text(self@),
    {
        let ghost base = old(out)@;
        let ghost pdv = self.properties.deep_view();
        let mut i: usize = 0;
        proof {
            assert(pdv.take(0) =~= Seq::<PropSpec>::empty());
            assert(out@ =~= base + props_text(pdv.take(0)));
        }
        while i < self.properties.len()
            invariant
                i <= self.properties@.len(),
                pdv == self.properties.deep_view(),
                out@ == base + props_text(pdv.take(i as int)),
            decreases self.properties@.len() - i,
        {
            append_property(out, &self.properties[i]);
            proof {
                lemma_props_text_push(pdv.take(i as int), pdv[i as int]);
                assert(pdv.take(i as int).push(pdv[i as int]) =~= pdv.take(i + 1));
                assert(out@ =~= base + props_text(pdv.take(i + 1)));
            }
            i = i + 1;
        }
        proof {
            assert(pdv.take(self.properties@.len() as int) =~= pdv);
        }
        let ghost mid = out@;
        let ghost sdv = self.sections.deep_view();
        let mut k: usize = 0;
        proof {
            assert(sdv.take(0) =~= Seq::<SectionSpec>::empty());
            assert(out@ =~= mid + sections_text(sdv.take(0)));
        }
        while k < self.sections.len()
            invariant
                k <= self.sections@.len(),
                sdv == self.sections.deep_view(),
                out@ == mid + sections_text(sdv.take(k as int)),
            decreases self.sections@.len() - k,
        {
            append_section(out, &self.sections[k]);
            proof {
                lemma_sections_text_push(sdv.take(k as int), sdv[k as int]);
                assert(sdv.take(k as int).push(sdv[k as int]) =~= sdv.take(k + 1));
                assert(out@ =~= mid + sections_text(sdv.take(k + 1)));
            }
            k = k + 1;
        }
        proof {
            assert(sdv.take(self.sections@.len() as int) =~= sdv);
            assert(out@ =~= base + doc_text(self@));
        }
    }
}

/// One `<key> = <value>\n` line per pair, in order.
pub open spec fn ini_text(rows: Seq<(Seq<char>, Seq<char>)>) -> Seq<char>
    decreases rows.len(),
{
    if rows.len() == 0 {
        Seq::empty()
    } else {
        rows[0].0 + seq![' ', '=', ' '] + rows[0].1 + seq!['\n'] + ini_text(rows.drop_first())
    }
}

pub proof fn lemma_ini_text_push(rows: Seq<(Seq<char>, Seq<char>)>, r: (Seq<char>, Seq<char>))
    ensures
        ini_text(rows.push(r)) == ini_text(rows) + (r.0 + seq![' ', '=', ' '] + r.1 + seq!['\n']),
    decreases rows.len(),
{
    if rows.len() == 0 {
        let tail = r.0 + seq![' ', '=', ' '] + r.1 + seq!['\n'];
        assert(rows.push(r).len() == 1);
        assert(rows.push(r)[0] == r);
        assert(rows.push(r).drop_first() =~= Seq::<(Seq<char>, Seq<char>)>::empty());
        assert(ini_text(rows.push(r).drop_first()) == Seq::<char>::empty());
        assert(ini_text(rows.push(r)) == tail + Seq::<char>::empty());
        assert(ini_text(rows) == Seq::<char>::empty());
        assert(tail + Seq::<char>::empty() =~= Seq::<char>::empty() + tail);
        assert(ini_text(rows.push(r)) =~= ini_text(rows) + tail);
    } else {
        lemma_ini_text_push(rows.drop_first(), r);
        assert(rows.push(r).drop_first() =~= rows.drop_first().push(r));
        assert(rows.push(r)[0] == rows[0]);
        let head = rows[0].0 + seq![' ', '=', ' '] + rows[0].1 + seq!['\n'];
        let tail = r.0 + seq![' ', '=', ' '] + r.1 + seq!['\n'];
        assert(ini_text(rows.push(r)) == head + (ini_text(rows.drop_first()) + tail));
        assert(head + (ini_text(rows.drop_first()) + tail) =~= (head + ini_text(rows.drop_first()))
            + tail);
        assert(ini_text(rows.push(r)) =~= ini_text(rows) + tail);
    }
}

/// Appends one `<key> = <value>\n` line for each pair, in order.
pub fn format_ini(out: &mut String, contents: Vec<(String, String)>)
    ensures
        final(out)@ == old(out)@ + ini_text(contents.deep_view()),
{
    let ghost base = old(out)@;
    let ghost dv = contents.deep_view();
    let mut i: usize = 0;
    proof {
        assert(dv.take(0) =~= Seq::<(Seq<char>, Seq<char>)>::empty());
        assert(out@ =~= base + ini_text(dv.take(0)));
    }
    while i < contents.len()
        invariant
            i <= contents@.len(),
            dv == contents.deep_view(),
            out@ == base + ini_text(dv.take(i as int)),
        decreases contents@.len() - i,
    {
        out.append(contents[i].0.as_str());
        out.append(" = ");
        out.append(contents[i].1.as_str());
        out.append("\n");
        proof {
            reveal_strlit(" = ");
            reveal_strlit("\n");
            assert(" = "@ =~= seq![' ', '=', ' ']);
            assert("\n"@ =~= seq!['\n']);
            lemma_ini_text_push(dv.take(i as int), dv[i as int]);
            assert(dv.take(i as int).push(dv[i as int]) =~= dv.take(i + 1));
            assert(out@ =~= base + ini_text(dv.take(i + 1)));
        }
        i = i + 1;
    }
    proof {
        assert(dv.take(contents@.len() as int) =~= dv);
    }
}

} // verus!
