//! The parser: configuration text to the ordered [`ConfigFile`] form.
//!
//! The text is read as logical lines separated by `\n`.  After trimming,
//! each line is exactly one of: blank, comment (`#` first), section header
//! (`[<name>]`), property (`<key> = <value>`, or a bare key), or malformed
//! (skipped, never fatal).  The whole scan is specified by [`parse_doc`],
//! a fold of [`line_step`] over the lines.

use vstd::prelude::*;
use crate::document::{ConfigFile, DocSpec, PropSpec, Property, Section, SectionSpec};
use crate::text::{
    first_index_of, lemma_first_index_of_is, lemma_split_on_at, lemma_split_on_len,
    lemma_split_on_no_sep, lemma_split_on_tokens, split_on, trim, trim_range, find_in_range,
    range_to_string, str_to_chars,
};

verus! {

/// The state of the line scan: the global properties and finished sections
/// gathered so far, and the section currently open, if any.
#[verifier::ext_equal]
pub struct ScanState {
    pub globals: Seq<PropSpec>,
    pub sections: Seq<SectionSpec>,
    pub open_section: Option<SectionSpec>,
}

/// The scan starts with nothing gathered and no section open.
pub open spec fn initial_state() -> ScanState {
    ScanState { globals: Seq::empty(), sections: Seq::empty(), open_section: None }
}

/// The finished sections once the open one, if any, is committed.  Reaching
/// the end of input closes the last section implicitly.
pub open spec fn close_section(st: ScanState) -> Seq<SectionSpec> {
    match st.open_section {
        Some(sec) => st.sections.push(sec),
        None => st.sections,
    }
}

/// A trimmed line of the shape `[<name>]` with `<name>` non-empty and free
/// of `]`.
pub open spec fn is_header(t: Seq<char>) -> bool {
    &&& t.len() >= 3
    &&& t[0] == '['
    &&& t.last() == ']'
    &&& forall|i: int| 1 <= i < t.len() - 1 ==> t[i] != ']'
}

/// The name between the brackets of a header line.
pub open spec fn header_name(t: Seq<char>) -> Seq<char> {
    t.subrange(1, t.len() - 1)
}

/// The property a trimmed line stands for, or `None` when the line is
/// malformed (its key trims to nothing).  The raw value is trimmed whole;
/// an empty raw value means a bare key, any other is split on `;` into
/// tokens kept verbatim.
pub open spec fn parse_prop_line(t: Seq<char>) -> Option<PropSpec> {
    let e = first_index_of(t, '=');
    if e == t.len() {
        Some(PropSpec { key: t, value: None })
    } else {
        let k = trim(t.take(e));
        let raw = trim(t.skip(e + 1));
        if k.len() == 0 {
            None
        } else if raw.len() == 0 {
            Some(PropSpec { key: k, value: None })
        } else {
            Some(PropSpec { key: k, value: Some(split_on(raw, ';')) })
        }
    }
}

/// How one logical line advances the scan.
pub open spec fn line_step(st: ScanState, line: Seq<char>) -> ScanState {
    let t = trim(line);
    if t.len() == 0 {
        st
    } else if t[0] == '#' {
        st
    } else if t[0] == '[' {
        if is_header(t) {
            ScanState {
                globals: st.globals,
                sections: close_section(st),
                open_section: Some(
                    SectionSpec { name: header_name(t), properties: Seq::empty() },
                ),
            }
        } else {
            st
        }
    } else {
        match parse_prop_line(t) {
            Some(p) => match st.open_section {
                Some(sec) => ScanState {
                    globals: st.globals,
                    sections: st.sections,
                    open_section: Some(
                        SectionSpec { name: sec.name, properties: sec.properties.push(p) },
                    ),
                },
                None => ScanState {
                    globals: st.globals.push(p),
                    sections: st.sections,
                    open_section: st.open_section,
                },
            },
            None => st,
        }
    }
}

/// The scan folded over a sequence of lines.
pub open spec fn run_lines(st: ScanState, lines: Seq<Seq<char>>) -> ScanState
    decreases lines.len(),
{
    if lines.len() == 0 {
        st
    } else {
        run_lines(line_step(st, lines[0]), lines.drop_first())
    }
}

/// The document a text stands for: the scan over its lines, with the last
/// open section closed.
pub open spec fn finish(st: ScanState) -> DocSpec {
    DocSpec { properties: st.globals, sections: close_section(st) }
}

pub open spec fn parse_doc(s: Seq<char>) -> DocSpec {
    finish(run_lines(initial_state(), split_on(s, '\n')))
}

/// A scan state assembled from the parser's working values.
pub open spec fn scan_state(
    globals: Seq<PropSpec>,
    sections: Seq<SectionSpec>,
    in_section: bool,
    name: Seq<char>,
    props: Seq<PropSpec>,
) -> ScanState {
    ScanState {
        globals,
        sections,
        open_section: if in_section {
            Some(SectionSpec { name, properties: props })
        } else {
            None
        },
    }
}

/// The data model's invariant on a value: a present value has at least
/// one token, and no token contains the `;` delimiter.
pub open spec fn valid_value(v: Option<Seq<Seq<char>>>) -> bool {
    match v {
        None => true,
        Some(toks) => toks.len() >= 1 && forall|k: int, i: int|
            0 <= k < toks.len() && 0 <= i < toks[k].len() ==> toks[k][i] != ';',
    }
}

/// The data model's invariant on a property: a non-empty key and a valid
/// value.
pub open spec fn valid_prop(p: PropSpec) -> bool {
    p.key.len() > 0 && valid_value(p.value)
}

pub open spec fn valid_props(ps: Seq<PropSpec>) -> bool {
    forall|i: int| 0 <= i < ps.len() ==> valid_prop(#[trigger] ps[i])
}

/// The data model's invariant on a section: a non-empty name and valid
/// properties.
pub open spec fn valid_section(s: SectionSpec) -> bool {
    s.name.len() > 0 && valid_props(s.properties)
}

pub open spec fn valid_doc(d: DocSpec) -> bool {
    valid_props(d.properties) && forall|i: int|
        0 <= i < d.sections.len() ==> valid_section(#[trigger] d.sections[i])
}

pub open spec fn valid_state(st: ScanState) -> bool {
    &&& valid_props(st.globals)
    &&& forall|i: int| 0 <= i < st.sections.len() ==> valid_section(#[trigger] st.sections[i])
    &&& (match st.open_section {
        Some(sec) => valid_section(sec),
        None => true,
    })
}

proof fn lemma_line_step_valid(st: ScanState, line: Seq<char>)
    requires
        valid_state(st),
    ensures
        valid_state(line_step(st, line)),
{
    let t = trim(line);
    let st2 = line_step(st, line);
    if t.len() == 0 {
    } else if t[0] == '#' {
    } else if t[0] == '[' {
        if is_header(t) {
            assert(header_name(t).len() == t.len() - 2 >= 1);
            assert forall|i: int| 0 <= i < st2.sections.len() implies valid_section(
                #[trigger] st2.sections[i],
            ) by {
                match st.open_section {
                    Some(sec) => {
                        if i < st.sections.len() {
                            assert(st2.sections[i] == st.sections[i]);
                        } else {
                            assert(st2.sections[i] == sec);
                        }
                    }
                    None => {
                        assert(st2.sections[i] == st.sections[i]);
                    }
                }
            }
        }
    } else {
        match parse_prop_line(t) {
            Some(p) => {
                assert(valid_prop(p)) by {
                    let e = first_index_of(t, '=');
                    if e == t.len() {
                    } else {
                        let raw = trim(t.skip(e + 1));
                        if raw.len() > 0 {
                            lemma_split_on_len(raw, ';');
                            lemma_split_on_tokens(raw, ';');
                        }
                    }
                }
                match st.open_section {
                    Some(sec) => {
                        let np = sec.properties.push(p);
                        assert forall|i: int| 0 <= i < np.len() implies valid_prop(
                            #[trigger] np[i],
                        ) by {
                            if i < sec.properties.len() {
                                assert(np[i] == sec.properties[i]);
                            } else {
                                assert(np[i] == p);
                            }
                        }
                    }
                    None => {
                        let ng = st.globals.push(p);
                        assert forall|i: int| 0 <= i < ng.len() implies valid_prop(
                            #[trigger] ng[i],
                        ) by {
                            if i < st.globals.len() {
                                assert(ng[i] == st.globals[i]);
                            } else {
                                assert(ng[i] == p);
                            }
                        }
                    }
                }
            }
            None => {}
        }
    }
}

proof fn lemma_run_lines_valid(st: ScanState, lines: Seq<Seq<char>>)
    requires
        valid_state(st),
    ensures
        valid_state(run_lines(st, lines)),
    decreases lines.len(),
{
    if lines.len() > 0 {
        lemma_line_step_valid(st, lines[0]);
        lemma_run_lines_valid(line_step(st, lines[0]), lines.drop_first());
    }
}

/// Whatever the text, the parsed document observes the data model's
/// invariants: keys and section names are non-empty, a present value has
/// at least one token, and no token contains `;`.
pub proof fn lemma_parse_doc_valid(s: Seq<char>)
    ensures
        valid_doc(parse_doc(s)),
{
    lemma_run_lines_valid(initial_state(), split_on(s, '\n'));
    let st = run_lines(initial_state(), split_on(s, '\n'));
    let d = finish(st);
    assert forall|i: int| 0 <= i < d.sections.len() implies valid_section(
        #[trigger] d.sections[i],
    ) by {
        match st.open_section {
            Some(sec) => {
                if i < st.sections.len() {
                    assert(d.sections[i] == st.sections[i]);
                } else {
                    assert(d.sections[i] == sec);
                }
            }
            None => {
                assert(d.sections[i] == st.sections[i]);
            }
        }
    }
}

/// The raw value of `v[a..b)` split on `;` into owned tokens.
pub fn split_semis(v: &Vec<char>, a: usize, b: usize) -> (toks: Vec<String>)
    requires
        a <= b <= v@.len(),
    ensures
        toks.deep_view() == split_on(v@.subrange(a as int, b as int), ';'),
{
    let ghost raw = v@.subrange(a as int, b as int);
    let mut toks: Vec<String> = Vec::new();
    let mut p: usize = a;
    loop
        invariant
            a <= p <= b <= v@.len(),
            raw == v@.subrange(a as int, b as int),
            split_on(raw, ';') == toks.deep_view() + split_on(v@.subrange(p as int, b as int), ';'),
        decreases b - p,
    {
        let ghost old_dv = toks.deep_view();
        let ghost rem = v@.subrange(p as int, b as int);
        let q = find_in_range(v, p, b, ';');
        let tok = range_to_string(v, p, q);
        toks.push(tok);
        proof {
            assert(toks.deep_view() =~= old_dv.push(v@.subrange(p as int, q as int)));
        }
        if q == b {
            proof {
                lemma_split_on_no_sep(rem, ';');
                assert(rem == v@.subrange(p as int, q as int));
                assert(old_dv + seq![rem] =~= toks.deep_view());
                assert(toks.deep_view() == split_on(raw, ';'));
            }
            return toks;
        }
        proof {
            assert(rem[q - p] == v@[q as int]);
            assert forall|i: int| 0 <= i < q - p implies rem[i] != ';' by {
                assert(rem[i] == v@[p + i]);
            }
            lemma_split_on_at(rem, ';', q - p);
            assert(rem.take(q - p) =~= v@.subrange(p as int, q as int));
            assert(rem.skip(q - p + 1) =~= v@.subrange(q + 1, b as int));
            assert(old_dv + (seq![v@.subrange(p as int, q as int)] + split_on(
                v@.subrange(q + 1, b as int),
                ';',
            )) =~= toks.deep_view() + split_on(v@.subrange(q + 1, b as int), ';'));
        }
        p = q + 1;
    }
}

impl ConfigFile {
    /// Parses the full text of a configuration file into its ordered form.
    /// Parsing is total: a malformed line is skipped, never fatal, so the
    /// result is always `Ok`.  The error arm exists for callers that
    /// propagate read failures unchanged.
    pub fn parse(contents: &str) -> (r: Result<ConfigFile, &'static str>)
        ensures
            r is Ok,
            (match r {
                Ok(f) => f@ == parse_doc(contents@),
                Err(_) => false,
            }),
    {
        let v = str_to_chars(contents);
        let n = v.len();
        let ghost full = v@;
        let mut globals: Vec<Property> = Vec::new();
        let mut sections: Vec<Section> = Vec::new();
        let mut open_name: String = String::new();
        let mut open_props: Vec<Property> = Vec::new();
        let mut in_section: bool = false;
        let mut pos: usize = 0;
        proof {
            assert(globals.deep_view() =~= Seq::<PropSpec>::empty());
            assert(sections.deep_view() =~= Seq::<SectionSpec>::empty());
            assert(scan_state(
                globals.deep_view(),
                sections.deep_view(),
                in_section,
                open_name@,
                open_props.deep_view(),
            ) =~= initial_state());
            assert(full.skip(0) =~= full);
        }
        loop
            invariant_except_break
                pos <= n,
                n == v@.len(),
                v@ == full,
                full == contents@,
                run_lines(initial_state(), split_on(full, '\n')) == run_lines(
                    scan_state(
                        globals.deep_view(),
                        sections.deep_view(),
                        in_section,
                        open_name@,
                        open_props.deep_view(),
                    ),
                    split_on(full.skip(pos as int), '\n'),
                ),
            ensures
                run_lines(initial_state(), split_on(full, '\n')) == scan_state(
                    globals.deep_view(),
                    sections.deep_view(),
                    in_section,
                    open_name@,
                    open_props.deep_view(),
                ),
            decreases n - pos,
        {
            let ghost st = scan_state(
                globals.deep_view(),
                sections.deep_view(),
                in_section,
                open_name@,
                open_props.deep_view(),
            );
            let ghost s_rem = full.skip(pos as int);
            let j = find_in_range(&v, pos, n, '\n');
            let ghost line = full.subrange(pos as int, j as int);
            proof {
                if j < n {
                    assert(s_rem[j - pos] == full[j as int]);
                    assert forall|i: int| 0 <= i < j - pos implies s_rem[i] != '\n' by {
                        assert(s_rem[i] == full[pos + i]);
                    }
                    lemma_split_on_at(s_rem, '\n', j - pos);
                    assert(s_rem.take(j - pos) =~= line);
                    assert(s_rem.skip(j - pos + 1) =~= full.skip(j + 1));
                    let rest = split_on(full.skip(j + 1), '\n');
                    assert((seq![line] + rest)[0] == line);
                    assert((seq![line] + rest).drop_first() =~= rest);
                    assert(run_lines(st, split_on(s_rem, '\n')) == run_lines(
                        line_step(st, line),
                        rest,
                    ));
                } else {
                    assert forall|i: int| 0 <= i < s_rem.len() implies s_rem[i] != '\n' by {
                        assert(s_rem[i] == full[pos + i]);
                    }
                    lemma_split_on_no_sep(s_rem, '\n');
                    assert(s_rem =~= line);
                    assert(seq![line][0] == line);
                    assert(seq![line].drop_first() =~= Seq::<Seq<char>>::empty());
                    assert(run_lines(st, split_on(s_rem, '\n')) == run_lines(
                        line_step(st, line),
                        Seq::<Seq<char>>::empty(),
                    ));
                    assert(run_lines(line_step(st, line), Seq::<Seq<char>>::empty()) == line_step(
                        st,
                        line,
                    ));
                }
            }
            let (a, b) = trim_range(&v, pos, j);
            let ghost t = trim(line);
            proof {
                assert(t == full.subrange(a as int, b as int));
            }
            if a == b {
                proof {
                    assert(line_step(st, line) == st);
                }
            } else if v[a] == '#' {
                proof {
                    assert(t[0] == full[a as int]);
                    assert(line_step(st, line) == st);
                }
            } else if v[a] == '[' {
                proof {
                    assert(t[0] == full[a as int]);
                }
                let header_ok: bool = if b - a >= 3 && v[b - 1] == ']' {
                    let jj = find_in_range(&v, a + 1, b - 1, ']');
                    proof {
                        if jj == b - 1 {
                            assert(is_header(t)) by {
                                assert(t.len() == b - a);
                                assert(t.last() == full[b - 1]);
                                assert forall|i: int| 1 <= i < t.len() - 1 implies t[i] != ']' by {
                                    assert(t[i] == full[a + i]);
                                }
                            }
                        } else {
                            assert(!is_header(t)) by {
                                assert(t[jj - a] == full[jj as int]);
                                assert(1 <= jj - a < t.len() - 1);
                            }
                        }
                    }
                    jj == b - 1
                } else {
                    proof {
                        assert(!is_header(t)) by {
                            if b - a >= 3 {
                                assert(t.last() == full[b - 1]);
                            }
                        }
                    }
                    false
                };
                if header_ok {
                    let name = range_to_string(&v, a + 1, b - 1);
                    let ghost old_sections = sections.deep_view();
                    if in_section {
                        sections.push(Section { name: open_name, properties: open_props });
                    }
                    open_name = name;
                    open_props = Vec::new();
                    in_section = true;
                    proof {
                        assert(header_name(t) =~= full.subrange(a + 1, b - 1));
                        if st.open_section is Some {
                            assert(sections.deep_view() =~= old_sections.push(
                                st.open_section->Some_0,
                            ));
                        }
                        assert(open_props.deep_view() =~= Seq::<PropSpec>::empty());
                        assert(scan_state(
                            globals.deep_view(),
                            sections.deep_view(),
                            in_section,
                            open_name@,
                            open_props.deep_view(),
                        ) =~= line_step(st, line));
                    }
                } else {
                    proof {
                        assert(line_step(st, line) == st);
                    }
                }
            } else {
                let e = find_in_range(&v, a, b, '=');
                proof {
                    assert(t[0] == full[a as int]);
                    if e < b {
                        assert(t[e - a] == full[e as int]);
                        assert forall|i: int| 0 <= i < e - a implies t[i] != '=' by {
                            assert(t[i] == full[a + i]);
                        }
                        lemma_first_index_of_is(t, '=', e - a);
                    } else {
                        assert forall|i: int| 0 <= i < t.len() implies t[i] != '=' by {
                            assert(t[i] == full[a + i]);
                        }
                        lemma_first_index_of_is(t, '=', t.len() as int);
                    }
                }
                let prop: Option<Property> = if e == b {
                    let key = range_to_string(&v, a, b);
                    proof {
                        assert(parse_prop_line(t) == Some(PropSpec { key: t, value: None }));
                    }
                    Some(Property { key, value: None })
                } else {
                    let (ka, kb) = trim_range(&v, a, e);
                    proof {
                        assert(t.take(e - a) =~= full.subrange(a as int, e as int));
                        assert(trim(t.take(e - a)) == full.subrange(ka as int, kb as int));
                    }
                    if ka == kb {
                        proof {
                            assert(parse_prop_line(t) is None);
                        }
                        None
                    } else {
                        let key = range_to_string(&v, ka, kb);
                        let (ra, rb) = trim_range(&v, e + 1, b);
                        proof {
                            assert(t.skip(e - a + 1) =~= full.subrange(e + 1, b as int));
                            assert(trim(t.skip(e - a + 1)) == full.subrange(ra as int, rb as int));
                        }
                        if ra == rb {
                            proof {
                                assert(parse_prop_line(t) == Some(
                                    PropSpec { key: key@, value: None },
                                ));
                            }
                            Some(Property { key, value: None })
                        } else {
                            let toks = split_semis(&v, ra, rb);
                            proof {
                                assert(parse_prop_line(t) == Some(
                                    PropSpec { key: key@, value: Some(toks.deep_view()) },
                                ));
                            }
                            Some(Property { key, value: Some(toks) })
                        }
                    }
                };
                match prop {
                    Some(p) => {
                        let ghost pv = p@;
                        proof {
                            assert(parse_prop_line(t) == Some(pv));
                        }
                        if in_section {
                            let ghost old_props = open_props.deep_view();
                            open_props.push(p);
                            proof {
                                assert(open_props.deep_view() =~= old_props.push(pv));
                                assert(scan_state(
                                    globals.deep_view(),
                                    sections.deep_view(),
                                    in_section,
                                    open_name@,
                                    open_props.deep_view(),
                                ) =~= line_step(st, line));
                            }
                        } else {
                            let ghost old_globals = globals.deep_view();
                            globals.push(p);
                            proof {
                                assert(globals.deep_view() =~= old_globals.push(pv));
                                assert(scan_state(
                                    globals.deep_view(),
                                    sections.deep_view(),
                                    in_section,
                                    open_name@,
                                    open_props.deep_view(),
                                ) =~= line_step(st, line));
                            }
                        }
                    }
                    None => {
                        proof {
                            assert(line_step(st, line) == st);
                        }
                    }
                }
            }
            if j == n {
                proof {
                    assert(run_lines(initial_state(), split_on(full, '\n')) == scan_state(
                        globals.deep_view(),
                        sections.deep_view(),
                        in_section,
                        open_name@,
                        open_props.deep_view(),
                    ));
                }
                break;
            }
            pos = j + 1;
        }
        let ghost end_state = scan_state(
            globals.deep_view(),
            sections.deep_view(),
            in_section,
            open_name@,
            open_props.deep_view(),
        );
        let mut all_sections = sections;
        if in_section {
            let ghost before = all_sections.deep_view();
            all_sections.push(Section { name: open_name, properties: open_props });
            proof {
                assert(all_sections.deep_view() =~= before.push(end_state.open_section->Some_0));
            }
        }
        let f = ConfigFile { properties: globals, sections: all_sections };
        proof {
            assert(f@ =~= finish(end_state));
        }
        Ok(f)
    }
}

} // verus!
