//! The laws that tie the parser, the formatter and the keyed form
//! together: what one logical line contributes to a parse, that formatting
//! a file and parsing the text back restores the file, and that a round
//! trip through the keyed form loses nothing.

use vstd::prelude::*;
use crate::document::{
    lemma_secs_map_at, lemma_secs_map_dom, props_map, secs_map, unique_section_names, DocSpec,
    PropSpec, SectionSpec,
};
use crate::parse::{
    close_section, finish, header_name, initial_state, is_header, line_step, parse_doc,
    parse_prop_line, run_lines, ScanState,
};
use crate::text::{
    first_index_of, is_ws, join, lemma_first_index_of, lemma_first_index_of_is,
    lemma_join_avoid, lemma_join_split_on, lemma_split_on_at, lemma_split_on_avoid,
    lemma_split_on_join, lemma_split_on_len, lemma_split_on_tokens, lemma_trim_avoid,
    lemma_trim_end_drop, lemma_trim_end_prefix, lemma_trim_idem, lemma_trim_nonws,
    lemma_trim_parts, lemma_trimmed_ends, split_on, trim, trim_end, trim_start,
};
use crate::write::{doc_text, prop_text, props_text, section_text, sections_text, value_text};

verus! {

/// A key the formatter writes and the parser reads back unchanged:
/// non-empty, no surrounding whitespace, not opening a comment or a
/// header, and free of `=` and newlines.
pub open spec fn wf_key(k: Seq<char>) -> bool {
    &&& k.len() > 0
    &&& trim(k) == k
    &&& k[0] != '#'
    &&& k[0] != '['
    &&& forall|i: int| 0 <= i < k.len() ==> k[i] != '=' && k[i] != '\n'
}

/// A value the formatter writes and the parser reads back unchanged:
/// either a bare key, or tokens free of `;` and newlines whose joined
/// text is non-empty and carries no surrounding whitespace.
pub open spec fn wf_value(v: Option<Seq<Seq<char>>>) -> bool {
    match v {
        None => true,
        Some(toks) => {
            &&& toks.len() >= 1
            &&& forall|k: int, i: int|
                0 <= k < toks.len() && 0 <= i < toks[k].len() ==> toks[k][i] != ';'
                    && toks[k][i] != '\n'
            &&& join(toks, ';').len() > 0
            &&& trim(join(toks, ';')) == join(toks, ';')
        },
    }
}

pub open spec fn wf_prop(p: PropSpec) -> bool {
    wf_key(p.key) && wf_value(p.value)
}

/// A section name the formatter writes and the parser reads back:
/// non-empty and free of `]` and newlines.
pub open spec fn wf_name(n: Seq<char>) -> bool {
    n.len() > 0 && forall|i: int| 0 <= i < n.len() ==> n[i] != ']' && n[i] != '\n'
}

pub open spec fn wf_section(s: SectionSpec) -> bool {
    wf_name(s.name) && forall|i: int|
        0 <= i < s.properties.len() ==> wf_prop(#[trigger] s.properties[i])
}

/// A document every part of which survives the trip through text.
pub open spec fn wf_doc(d: DocSpec) -> bool {
    &&& forall|i: int| 0 <= i < d.properties.len() ==> wf_prop(#[trigger] d.properties[i])
    &&& forall|i: int| 0 <= i < d.sections.len() ==> wf_section(#[trigger] d.sections[i])
}

/// The formatted property line, without its final newline.
pub open spec fn prop_line(p: PropSpec) -> Seq<char> {
    p.key + seq![' ', '=', ' '] + value_text(p.value)
}

/// Every property line produces exactly one property, appended to the
/// open section's list when a section is open and to the global list
/// otherwise; nothing else of the scan changes.
pub proof fn lemma_property_line_appends(st: ScanState, line: Seq<char>)
    requires
        trim(line).len() > 0,
        trim(line)[0] != '#',
        trim(line)[0] != '[',
        parse_prop_line(trim(line)) is Some,
    ensures
        ({
            let p = parse_prop_line(trim(line))->Some_0;
            let st2 = line_step(st, line);
            &&& st2.sections == st.sections
            &&& (match st.open_section {
                Some(sec) => st2.globals == st.globals && st2.open_section == Some(
                    SectionSpec { name: sec.name, properties: sec.properties.push(p) },
                ),
                None => st2.globals == st.globals.push(p) && st2.open_section
                    == None::<SectionSpec>,
            })
        }),
{
}

/// A well-formed property's line holds no newline.
pub proof fn lemma_prop_line_no_newline(p: PropSpec)
    requires
        wf_prop(p),
    ensures
        forall|i: int| 0 <= i < prop_line(p).len() ==> prop_line(p)[i] != '\n',
{
    let l = prop_line(p);
    let kl = p.key.len() as int;
    match p.value {
        None => {
            assert forall|i: int| 0 <= i < l.len() implies l[i] != '\n' by {
                if i < kl {
                    assert(l[i] == p.key[i]);
                } else {
                    assert(l[i] == seq![' ', '=', ' '][i - kl]);
                }
            }
        }
        Some(toks) => {
            lemma_join_avoid(toks, ';', '\n');
            let jn = join(toks, ';');
            assert forall|i: int| 0 <= i < l.len() implies l[i] != '\n' by {
                if i < kl {
                    assert(l[i] == p.key[i]);
                } else if i < kl + 3 {
                    assert(l[i] == seq![' ', '=', ' '][i - kl]);
                } else {
                    assert(l[i] == jn[i - kl - 3]);
                }
            }
        }
    }
}

/// A well-formed property's line trims to a property-shaped line that
/// parses back to exactly that property.
pub proof fn lemma_prop_line_parses(p: PropSpec)
    requires
        wf_prop(p),
    ensures
        trim(prop_line(p)).len() > 0,
        trim(prop_line(p))[0] != '#',
        trim(prop_line(p))[0] != '[',
        parse_prop_line(trim(prop_line(p))) == Some(p),
{
    let l = prop_line(p);
    let kl = p.key.len() as int;
    lemma_trim_parts(p.key);
    lemma_trimmed_ends(p.key);
    assert(l[0] == p.key[0]);
    match p.value {
        None => {
            assert(value_text(p.value) == Seq::<char>::empty());
            assert(l =~= (p.key + seq![' ', '=']).push(' '));
            assert(trim_start(l) == l);
            lemma_trim_end_drop(p.key + seq![' ', '='], ' ');
            assert((p.key + seq![' ', '=']).last() == '=');
            assert(trim_end(p.key + seq![' ', '=']) == p.key + seq![' ', '=']);
            let t = trim(l);
            assert(t == p.key + seq![' ', '=']);
            assert(t[0] == p.key[0]);
            assert(t[kl + 1] == '=');
            assert forall|i: int| 0 <= i < kl + 1 implies t[i] != '=' by {
                if i < kl {
                    assert(t[i] == p.key[i]);
                } else {
                    assert(t[i] == ' ');
                }
            }
            lemma_first_index_of_is(t, '=', kl + 1);
            assert(t.take(kl + 1) =~= p.key.push(' '));
            assert(trim_start(p.key.push(' ')) == p.key.push(' '));
            lemma_trim_end_drop(p.key, ' ');
            assert(trim(t.take(kl + 1)) == p.key);
            assert(t.skip(kl + 2) =~= Seq::<char>::empty());
            assert(trim(Seq::<char>::empty()) == Seq::<char>::empty());
            assert(parse_prop_line(t) == Some(PropSpec { key: p.key, value: None }));
            assert(PropSpec { key: p.key, value: None } == p);
        }
        Some(toks) => {
            let jn = join(toks, ';');
            assert(value_text(p.value) == jn);
            lemma_trim_parts(jn);
            lemma_trimmed_ends(jn);
            assert(l.len() == kl + 3 + jn.len());
            assert(l.last() == jn.last());
            lemma_trim_nonws(l);
            let t = trim(l);
            assert(t == l);
            assert(t[kl + 1] == '=');
            assert forall|i: int| 0 <= i < kl + 1 implies t[i] != '=' by {
                if i < kl {
                    assert(t[i] == p.key[i]);
                } else {
                    assert(t[i] == ' ');
                }
            }
            lemma_first_index_of_is(t, '=', kl + 1);
            assert(t.take(kl + 1) =~= p.key.push(' '));
            assert(trim_start(p.key.push(' ')) == p.key.push(' '));
            lemma_trim_end_drop(p.key, ' ');
            assert(trim(t.take(kl + 1)) == p.key);
            assert(t.skip(kl + 2) =~= seq![' '] + jn);
            assert((seq![' '] + jn)[0] == ' ');
            assert((seq![' '] + jn).drop_first() =~= jn);
            assert(trim_start(seq![' '] + jn) == trim_start(jn));
            assert(trim(t.skip(kl + 2)) == jn);
            lemma_split_on_join(toks, ';');
            assert(parse_prop_line(t) == Some(PropSpec { key: p.key, value: Some(toks) }));
            assert(PropSpec { key: p.key, value: Some(toks) } == p);
        }
    }
}

/// The scan state once `ps` have been appended to the open list: the open
/// section's properties when one is open, the globals otherwise.
pub open spec fn append_all(st: ScanState, ps: Seq<PropSpec>) -> ScanState {
    match st.open_section {
        Some(sec) => ScanState {
            globals: st.globals,
            sections: st.sections,
            open_section: Some(
                SectionSpec { name: sec.name, properties: sec.properties + ps },
            ),
        },
        None => ScanState { globals: st.globals + ps, sections: st.sections, open_section: None },
    }
}

/// Scanning the formatted lines of a property list appends exactly those
/// properties, then goes on with the rest of the text.
pub proof fn lemma_run_props(st: ScanState, ps: Seq<PropSpec>, rest: Seq<char>)
    requires
        forall|i: int| 0 <= i < ps.len() ==> wf_prop(#[trigger] ps[i]),
    ensures
        run_lines(st, split_on(props_text(ps) + rest, '\n')) == run_lines(
            append_all(st, ps),
            split_on(rest, '\n'),
        ),
    decreases ps.len(),
{
    if ps.len() == 0 {
        assert(props_text(ps) + rest =~= rest);
        match st.open_section {
            Some(sec) => {
                assert(sec.properties + ps =~= sec.properties);
                assert(append_all(st, ps) =~= st);
            }
            None => {
                assert(st.globals + ps =~= st.globals);
                assert(append_all(st, ps) =~= st);
            }
        }
    } else {
        let p = ps[0];
        let l = prop_line(p);
        let tail = props_text(ps.drop_first()) + rest;
        let s = l + seq!['\n'] + tail;
        assert(prop_text(p) =~= l + seq!['\n']);
        assert(props_text(ps) + rest =~= s);
        lemma_prop_line_no_newline(p);
        assert(s[l.len() as int] == '\n');
        assert forall|i: int| 0 <= i < l.len() implies s[i] != '\n' by {
            assert(s[i] == l[i]);
        }
        lemma_split_on_at(s, '\n', l.len() as int);
        assert(s.take(l.len() as int) =~= l);
        assert(s.skip(l.len() as int + 1) =~= tail);
        assert((seq![l] + split_on(tail, '\n'))[0] == l);
        assert((seq![l] + split_on(tail, '\n')).drop_first() =~= split_on(tail, '\n'));
        assert(run_lines(st, split_on(s, '\n')) == run_lines(
            line_step(st, l),
            split_on(tail, '\n'),
        ));
        lemma_prop_line_parses(p);
        lemma_property_line_appends(st, l);
        let st1 = line_step(st, l);
        assert forall|i: int| 0 <= i < ps.drop_first().len() implies wf_prop(
            #[trigger] ps.drop_first()[i],
        ) by {
            assert(ps.drop_first()[i] == ps[i + 1]);
        }
        lemma_run_props(st1, ps.drop_first(), rest);
        match st.open_section {
            Some(sec) => {
                assert(sec.properties.push(p) + ps.drop_first() =~= sec.properties + ps);
                assert(append_all(st1, ps.drop_first()) =~= append_all(st, ps));
            }
            None => {
                assert(st.globals.push(p) + ps.drop_first() =~= st.globals + ps);
                assert(append_all(st1, ps.drop_first()) =~= append_all(st, ps));
            }
        }
    }
}

/// Scanning one formatted section commits the previously open section,
/// opens this one and fills it, then goes on with the rest of the text.
pub proof fn lemma_run_section(st: ScanState, s: SectionSpec, rest: Seq<char>)
    requires
        wf_section(s),
    ensures
        run_lines(st, split_on(section_text(s) + rest, '\n')) == run_lines(
            ScanState {
                globals: st.globals,
                sections: close_section(st),
                open_section: Some(s),
            },
            split_on(rest, '\n'),
        ),
{
    let hl = seq!['['] + s.name + seq![']'];
    let body = props_text(s.properties) + rest;
    let s1 = hl + seq!['\n'] + body;
    let s0 = section_text(s) + rest;
    assert(s0 =~= seq!['\n'] + s1);
    assert(s0[0] == '\n');
    lemma_split_on_at(s0, '\n', 0);
    assert(s0.take(0) =~= Seq::<char>::empty());
    assert(s0.skip(1) =~= s1);
    assert(trim(Seq::<char>::empty()) == Seq::<char>::empty());
    assert(line_step(st, Seq::<char>::empty()) == st);
    assert((seq![Seq::<char>::empty()] + split_on(s1, '\n'))[0] == Seq::<char>::empty());
    assert((seq![Seq::<char>::empty()] + split_on(s1, '\n')).drop_first() =~= split_on(s1, '\n'));
    assert(run_lines(st, split_on(s0, '\n')) == run_lines(st, split_on(s1, '\n')));
    assert(s1[hl.len() as int] == '\n');
    assert forall|i: int| 0 <= i < hl.len() implies s1[i] != '\n' by {
        assert(s1[i] == hl[i]);
        if i == 0 {
        } else if i < hl.len() - 1 {
            assert(hl[i] == s.name[i - 1]);
        } else {
            assert(hl[i] == ']');
        }
    }
    lemma_split_on_at(s1, '\n', hl.len() as int);
    assert(s1.take(hl.len() as int) =~= hl);
    assert(s1.skip(hl.len() as int + 1) =~= body);
    assert((seq![hl] + split_on(body, '\n'))[0] == hl);
    assert((seq![hl] + split_on(body, '\n')).drop_first() =~= split_on(body, '\n'));
    assert(run_lines(st, split_on(s1, '\n')) == run_lines(
        line_step(st, hl),
        split_on(body, '\n'),
    ));
    assert(hl[0] == '[');
    assert(hl.last() == ']');
    assert(!is_ws('['));
    assert(!is_ws(']'));
    lemma_trim_nonws(hl);
    assert(trim(hl) == hl);
    assert(is_header(hl)) by {
        assert forall|i: int| 1 <= i < hl.len() - 1 implies hl[i] != ']' by {
            assert(hl[i] == s.name[i - 1]);
        }
    }
    assert(header_name(hl) =~= s.name);
    let st1 = line_step(st, hl);
    assert(st1 == ScanState {
        globals: st.globals,
        sections: close_section(st),
        open_section: Some(SectionSpec { name: s.name, properties: Seq::empty() }),
    });
    lemma_run_props(st1, s.properties, rest);
    assert(append_all(st1, s.properties) =~= ScanState {
        globals: st.globals,
        sections: close_section(st),
        open_section: Some(s),
    }) by {
        assert(Seq::<PropSpec>::empty() + s.properties =~= s.properties);
    }
}

/// The scan state after a whole run of formatted sections: all but the
/// last are committed, the last is left open.
pub open spec fn after_sections(st: ScanState, ss: Seq<SectionSpec>) -> ScanState {
    if ss.len() == 0 {
        st
    } else {
        ScanState {
            globals: st.globals,
            sections: close_section(st) + ss.drop_last(),
            open_section: Some(ss.last()),
        }
    }
}

/// Scanning the formatted lines of a section list commits them in order,
/// leaving the last one open, then goes on with the rest of the text.
pub proof fn lemma_run_sections(st: ScanState, ss: Seq<SectionSpec>, rest: Seq<char>)
    requires
        forall|i: int| 0 <= i < ss.len() ==> wf_section(#[trigger] ss[i]),
    ensures
        run_lines(st, split_on(sections_text(ss) + rest, '\n')) == run_lines(
            after_sections(st, ss),
            split_on(rest, '\n'),
        ),
    decreases ss.len(),
{
    if ss.len() == 0 {
        assert(sections_text(ss) + rest =~= rest);
    } else {
        let s = ss[0];
        let tail = sections_text(ss.drop_first()) + rest;
        assert(sections_text(ss) + rest =~= section_text(s) + tail);
        lemma_run_section(st, s, tail);
        let st1 = ScanState {
            globals: st.globals,
            sections: close_section(st),
            open_section: Some(s),
        };
        assert forall|i: int| 0 <= i < ss.drop_first().len() implies wf_section(
            #[trigger] ss.drop_first()[i],
        ) by {
            assert(ss.drop_first()[i] == ss[i + 1]);
        }
        lemma_run_sections(st1, ss.drop_first(), rest);
        if ss.len() == 1 {
            assert(ss.drop_first().len() == 0);
            assert(after_sections(st1, ss.drop_first()) == st1);
            assert(close_section(st) + ss.drop_last() =~= close_section(st));
            assert(after_sections(st, ss) =~= st1);
        } else {
            let rest_ss = ss.drop_first();
            assert(after_sections(st1, rest_ss) == ScanState {
                globals: st.globals,
                sections: close_section(st1) + rest_ss.drop_last(),
                open_section: Some(rest_ss.last()),
            });
            assert(close_section(st1) =~= close_section(st).push(s));
            assert(close_section(st).push(s) + rest_ss.drop_last() =~= close_section(st)
                + ss.drop_last());
            assert(rest_ss.last() == ss.last());
            assert(after_sections(st1, rest_ss) =~= after_sections(st, ss));
        }
    }
}

/// Formatting an ordered file and parsing the text back yields the same
/// file, for any file whose keys, names and values use only shapes the
/// dialect can write down.
pub proof fn lemma_parse_format_round_trip(d: DocSpec)
    requires
        wf_doc(d),
    ensures
        parse_doc(doc_text(d)) == d,
{
    let rest1 = sections_text(d.sections);
    assert(doc_text(d) == props_text(d.properties) + rest1);
    lemma_run_props(initial_state(), d.properties, rest1);
    let st1 = append_all(initial_state(), d.properties);
    assert(st1 =~= ScanState {
        globals: d.properties,
        sections: Seq::empty(),
        open_section: None,
    }) by {
        assert(Seq::<PropSpec>::empty() + d.properties =~= d.properties);
    }
    assert(rest1 =~= sections_text(d.sections) + Seq::<char>::empty());
    lemma_run_sections(st1, d.sections, Seq::<char>::empty());
    let st2 = after_sections(st1, d.sections);
    assert(split_on(Seq::<char>::empty(), '\n') == seq![Seq::<char>::empty()]);
    assert(trim(Seq::<char>::empty()) == Seq::<char>::empty());
    assert(line_step(st2, Seq::<char>::empty()) == st2);
    assert(seq![Seq::<char>::empty()][0] == Seq::<char>::empty());
    assert(seq![Seq::<char>::empty()].drop_first() =~= Seq::<Seq<char>>::empty());
    assert(run_lines(st2, seq![Seq::<char>::empty()]) == run_lines(
        st2,
        Seq::<Seq<char>>::empty(),
    ));
    assert(run_lines(st2, Seq::<Seq<char>>::empty()) == st2);
    assert(parse_doc(doc_text(d)) == finish(st2));
    if d.sections.len() == 0 {
        assert(finish(st2) =~= d);
    } else {
        assert(close_section(st1) =~= Seq::<SectionSpec>::empty());
        assert(st2.sections =~= d.sections.drop_last());
        assert(close_section(st2) =~= d.sections.drop_last().push(d.sections.last()));
        assert(d.sections.drop_last().push(d.sections.last()) =~= d.sections);
        assert(finish(st2) =~= d);
    }
}

/// A property read from a trimmed, newline-free line is itself
/// round-trippable: the parser only ever builds well-formed properties.
proof fn lemma_parse_prop_line_wf(t: Seq<char>)
    requires
        trim(t) == t,
        t.len() > 0,
        t[0] != '#',
        t[0] != '[',
        forall|i: int| 0 <= i < t.len() ==> t[i] != '\n',
    ensures
        parse_prop_line(t) is Some ==> wf_prop(parse_prop_line(t)->Some_0),
{
    lemma_trimmed_ends(t);
    lemma_first_index_of(t, '=');
    let e = first_index_of(t, '=');
    if e == t.len() {
        assert(wf_key(t));
    } else {
        let pre = t.take(e);
        let k = trim(pre);
        lemma_trim_idem(pre);
        if k.len() > 0 {
            assert(wf_key(k)) by {
                lemma_trim_end_prefix(trim_start(pre));
                assert(e > 0);
                assert(pre[0] == t[0]);
                assert(trim_start(pre) == pre);
                assert forall|i: int| 0 <= i < k.len() implies k[i] == t[i] by {
                    assert(k[i] == pre[i]);
                }
                assert(k[0] == t[0]);
            }
            let post = t.skip(e + 1);
            let raw = trim(post);
            lemma_trim_idem(post);
            assert forall|i: int| 0 <= i < post.len() implies post[i] != '\n' by {
                assert(post[i] == t[e + 1 + i]);
            }
            lemma_trim_avoid(post, '\n');
            if raw.len() > 0 {
                let toks = split_on(raw, ';');
                lemma_split_on_len(raw, ';');
                lemma_split_on_tokens(raw, ';');
                lemma_split_on_avoid(raw, ';', '\n');
                lemma_join_split_on(raw, ';');
                assert(join(toks, ';') == raw);
                assert(wf_value(Some(toks)));
            }
        }
    }
}

/// The scan only ever holds well-formed properties and sections.
spec fn wf_scan_state(st: ScanState) -> bool {
    &&& forall|i: int| 0 <= i < st.globals.len() ==> wf_prop(#[trigger] st.globals[i])
    &&& forall|i: int| 0 <= i < st.sections.len() ==> wf_section(#[trigger] st.sections[i])
    &&& (match st.open_section {
        Some(sec) => wf_section(sec),
        None => true,
    })
}

proof fn lemma_line_step_wf(st: ScanState, line: Seq<char>)
    requires
        wf_scan_state(st),
        forall|i: int| 0 <= i < line.len() ==> line[i] != '\n',
    ensures
        wf_scan_state(line_step(st, line)),
{
    let t = trim(line);
    lemma_trim_idem(line);
    lemma_trim_avoid(line, '\n');
    let st2 = line_step(st, line);
    if t.len() == 0 {
    } else if t[0] == '#' {
    } else if t[0] == '[' {
        if is_header(t) {
            assert(wf_name(header_name(t))) by {
                assert forall|i: int| 0 <= i < header_name(t).len() implies header_name(t)[i]
                    != ']' && header_name(t)[i] != '\n' by {
                    assert(header_name(t)[i] == t[i + 1]);
                }
            }
            assert forall|i: int| 0 <= i < st2.sections.len() implies wf_section(
                #[trigger] st2.sections[i],
            ) by {
                match st.open_section {
                    Some(sec) => {
                        if i < st.sections.len() {
                            assert(st2.sections[i] == st.sections[i]);
                        } else {
                            assert(st2.sections[i] == sec);
                        }
                    }
                    None => {
                        assert(st2.sections[i] == st.sections[i]);
                    }
                }
            }
        }
    } else {
        lemma_parse_prop_line_wf(t);
        match parse_prop_line(t) {
            Some(p) => {
                match st.open_section {
                    Some(sec) => {
                        let np = sec.properties.push(p);
                        assert forall|i: int| 0 <= i < np.len() implies wf_prop(
                            #[trigger] np[i],
                        ) by {
                            if i < sec.properties.len() {
                                assert(np[i] == sec.properties[i]);
                            } else {
                                assert(np[i] == p);
                            }
                        }
                    }
                    None => {
                        let ng = st.globals.push(p);
                        assert forall|i: int| 0 <= i < ng.len() implies wf_prop(
                            #[trigger] ng[i],
                        ) by {
                            if i < st.globals.len() {
                                assert(ng[i] == st.globals[i]);
                            } else {
                                assert(ng[i] == p);
                            }
                        }
                    }
                }
            }
            None => {}
        }
    }
}

proof fn lemma_run_lines_wf(st: ScanState, lines: Seq<Seq<char>>)
    requires
        wf_scan_state(st),
        forall|k: int, i: int|
            0 <= k < lines.len() && 0 <= i < lines[k].len() ==> lines[k][i] != '\n',
    ensures
        wf_scan_state(run_lines(st, lines)),
    decreases lines.len(),
{
    if lines.len() > 0 {
        lemma_line_step_wf(st, lines[0]);
        assert forall|k: int, i: int|
            0 <= k < lines.drop_first().len() && 0 <= i < lines.drop_first()[k].len()
            implies lines.drop_first()[k][i] != '\n' by {
            assert(lines.drop_first()[k] == lines[k + 1]);
        }
        lemma_run_lines_wf(line_step(st, lines[0]), lines.drop_first());
    }
}

/// Whatever the text, the parsed document is round-trippable: every key,
/// name and value the parser builds uses only shapes the formatter can
/// write back.
pub proof fn lemma_parse_doc_wf(s: Seq<char>)
    ensures
        wf_doc(parse_doc(s)),
{
    lemma_split_on_tokens(s, '\n');
    lemma_run_lines_wf(initial_state(), split_on(s, '\n'));
    let st = run_lines(initial_state(), split_on(s, '\n'));
    let d = finish(st);
    assert forall|i: int| 0 <= i < d.sections.len() implies wf_section(
        #[trigger] d.sections[i],
    ) by {
        match st.open_section {
            Some(sec) => {
                if i < st.sections.len() {
                    assert(d.sections[i] == st.sections[i]);
                } else {
                    assert(d.sections[i] == sec);
                }
            }
            None => {
                assert(d.sections[i] == st.sections[i]);
            }
        }
    }
}

/// One pass through the codec normalizes the text for good: parsing,
/// formatting the result and parsing again returns the same document,
/// whatever the input text.
pub proof fn lemma_parse_idempotent(s: Seq<char>)
    ensures
        parse_doc(doc_text(parse_doc(s))) == parse_doc(s),
{
    lemma_parse_doc_wf(s);
    lemma_parse_format_round_trip(parse_doc(s));
}

/// A repeated element counts at least twice in the multiset.
proof fn lemma_two_occurrences_count<A>(s: Seq<A>, i: int, j: int)
    requires
        0 <= i < j < s.len(),
        s[i] == s[j],
    ensures
        s.to_multiset().count(s[i]) >= 2,
{
    broadcast use vstd::multiset::group_multiset_axioms;

    let s2 = s.remove(i);
    vstd::seq_lib::to_multiset_remove(s, i);
    assert(s2[j - 1] == s[j]);
    assert(s2.contains(s[i]));
    vstd::seq_lib::to_multiset_contains(s2, s[i]);
    assert(s2.to_multiset().count(s[i]) > 0);
    assert(s.to_multiset().count(s[i]) == s2.to_multiset().count(s[i]) + 1);
}

/// Under unique names no section occurs twice.
proof fn lemma_unique_names_counts(ss: Seq<SectionSpec>)
    requires
        unique_section_names(ss),
    ensures
        forall|x: SectionSpec| #[trigger] ss.to_multiset().count(x) <= 1,
    decreases ss.len(),
{
    broadcast use vstd::multiset::group_multiset_axioms;
    broadcast use vstd::multiset::group_multiset_properties;

    if ss.len() == 0 {
        assert forall|x: SectionSpec| #[trigger] ss.to_multiset().count(x) <= 1 by {
            vstd::seq_lib::to_multiset_contains(ss, x);
            assert(!ss.contains(x));
        }
    } else {
        let dl = ss.drop_last();
        let last = ss.last();
        assert forall|a: int, b: int| 0 <= a < b < dl.len() implies dl[a].name != dl[b].name by {
            assert(ss[a].name != ss[b].name);
        }
        lemma_unique_names_counts(dl);
        assert(ss =~= dl.push(last));
        vstd::seq_lib::to_multiset_build(dl, last);
        assert forall|x: SectionSpec| #[trigger] ss.to_multiset().count(x) <= 1 by {
            if x == last {
                assert(!dl.contains(x)) by {
                    if dl.contains(x) {
                        let t = choose|t: int| 0 <= t < dl.len() && dl[t] == x;
                        assert(ss[t].name == ss[ss.len() - 1].name);
                        assert(false);
                    }
                }
                vstd::seq_lib::to_multiset_contains(dl, x);
                assert(dl.to_multiset().count(x) == 0);
                assert(ss.to_multiset().count(x) == 1);
            } else {
                assert(ss.to_multiset().count(x) == dl.to_multiset().count(x));
            }
        }
    }
}

/// Two section lists with the same sections, names unique in one, stand
/// for the same mapping: the reordering in `to_file` loses nothing.
pub proof fn lemma_secs_map_permutation(ss1: Seq<SectionSpec>, ss2: Seq<SectionSpec>)
    requires
        unique_section_names(ss1),
        ss1.to_multiset() == ss2.to_multiset(),
    ensures
        unique_section_names(ss2),
        secs_map(ss2) == secs_map(ss1),
{
    broadcast use vstd::multiset::group_multiset_axioms;

    assert forall|x: SectionSpec| ss1.contains(x) <==> ss2.contains(x) by {
        vstd::seq_lib::to_multiset_contains(ss1, x);
        vstd::seq_lib::to_multiset_contains(ss2, x);
    }
    lemma_unique_names_counts(ss1);
    assert forall|a: int, b: int| 0 <= a < b < ss2.len() implies ss2[a].name != ss2[b].name by {
        if ss2[a].name == ss2[b].name {
            if ss2[a] == ss2[b] {
                lemma_two_occurrences_count(ss2, a, b);
                assert(false);
            } else {
                assert(ss2.contains(ss2[a]));
                assert(ss2.contains(ss2[b]));
                assert(ss1.contains(ss2[a]));
                assert(ss1.contains(ss2[b]));
                let i1 = choose|i: int| 0 <= i < ss1.len() && ss1[i] == ss2[a];
                let i2 = choose|i: int| 0 <= i < ss1.len() && ss1[i] == ss2[b];
                assert(i1 != i2);
                assert(ss1[i1].name == ss1[i2].name);
                assert(false);
            }
        }
    }
    lemma_secs_map_dom(ss1);
    lemma_secs_map_dom(ss2);
    let m1 = secs_map(ss1);
    let m2 = secs_map(ss2);
    assert forall|n: Seq<char>| #[trigger] m1.contains_key(n) implies m2.contains_key(n) && m2[n]
        == m1[n] by {
        let i1 = choose|i: int| 0 <= i < ss1.len() && ss1[i].name == n;
        assert(ss1.contains(ss1[i1]));
        assert(ss2.contains(ss1[i1]));
        let i2 = choose|i: int| 0 <= i < ss2.len() && ss2[i] == ss1[i1];
        assert(ss2[i2].name == n);
        lemma_secs_map_at(ss1, i1);
        lemma_secs_map_at(ss2, i2);
        assert(m1[n] == props_map(ss1[i1].properties));
        assert(m2[n] == props_map(ss2[i2].properties));
    }
    assert forall|n: Seq<char>| #[trigger] m2.contains_key(n) implies m1.contains_key(n) by {
        let i2 = choose|i: int| 0 <= i < ss2.len() && ss2[i].name == n;
        assert(ss2.contains(ss2[i2]));
        assert(ss1.contains(ss2[i2]));
        let i1 = choose|i: int| 0 <= i < ss1.len() && ss1[i] == ss2[i2];
        assert(ss1[i1].name == n);
    }
    assert(m2 =~= m1);
}

/// A round trip through the keyed form loses nothing: for a keyed form
/// `m` with unique section names, any file `f` built as `to_file` builds
/// it, and any keyed form `m2` built from `f` as `to_map` builds it,
/// carries the same key and section mappings as `m`.
pub proof fn lemma_keyed_round_trip(m: DocSpec, f: DocSpec, m2: DocSpec)
    requires
        unique_section_names(m.sections),
        f.properties == m.properties,
        f.sections.to_multiset() == m.sections.to_multiset(),
        props_map(m2.properties) == props_map(f.properties),
        secs_map(m2.sections) == secs_map(f.sections),
    ensures
        props_map(m2.properties) == props_map(m.properties),
        secs_map(m2.sections) == secs_map(m.sections),
{
    lemma_secs_map_permutation(m.sections, f.sections);
}

} // verus!
