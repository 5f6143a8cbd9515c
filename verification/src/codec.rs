use vstd::prelude::*;
use vstd::string::StrSliceExecFns;
use vstd::string::StringExecFns;

use crate::pair::SettingsPair;
use crate::section::none_selected;
use crate::section::pair_view;
use crate::section::SettingsSection;
use crate::settings::section_entry;
use crate::settings::sections_unselected;
use crate::settings::upsert_section;
use crate::settings::Settings;

verus! {

/// The text format: `[name]` header lines, `key=value` pair lines, one blank
/// line after each section's block.  `decode` reads it back; blank lines are
/// skipped, repeated headers merge, a later pair wins on a repeated key.
/// The source file's own limitation is kept deliberately: nothing is
/// escaped, so keys and values holding `=`, `[`, `]` or newlines are outside
/// the round-trippable set (`encodable` below).
#[derive(Clone, Copy, Debug, PartialEq, Eq)]
pub enum LoadError {
    /// The text does not parse: a headerless pair line, a pair line without
    /// `=`, or a broken `[...]` header.
    Malformed,
}

/// One pair's line, newline included.
pub open spec fn encode_pair(p: SettingsPair) -> Seq<char> {
    p.key@ + seq!['='] + p.value@ + seq!['\n']
}

/// The pair lines of a section, in order.
pub open spec fn encode_pairs(pairs: Seq<SettingsPair>) -> Seq<char>
    decreases pairs.len(),
{
    if pairs.len() == 0 {
        Seq::empty()
    } else {
        encode_pair(pairs[0]) + encode_pairs(pairs.skip(1))
    }
}

/// A section's block: header line, then its pair lines.
pub open spec fn encode_section(s: SettingsSection) -> Seq<char> {
    seq!['['] + s.name@ + seq![']'] + seq!['\n'] + encode_pairs(s.pairs@)
}

/// The whole text: each section's block followed by a blank line.
pub open spec fn encode_sections(sections: Seq<SettingsSection>) -> Seq<char>
    decreases sections.len(),
{
    if sections.len() == 0 {
        Seq::empty()
    } else {
        encode_section(sections[0]) + seq!['\n'] + encode_sections(sections.skip(1))
    }
}

/// The first position of `c` in `s`, or `s.len()` when `c` is absent.
pub open spec fn find_char(s: Seq<char>, c: char) -> int
    decreases s.len(),
{
    if s.len() == 0 {
        0
    } else if s[0] == c {
        0
    } else {
        1 + find_char(s.skip(1), c)
    }
}

pub proof fn lemma_find_char_props(s: Seq<char>, c: char)
    ensures
        0 <= find_char(s, c) <= s.len(),
        forall|i: int| 0 <= i < find_char(s, c) ==> s[i] != c,
        find_char(s, c) < s.len() ==> s[find_char(s, c)] == c,
    decreases s.len(),
{
    if s.len() > 0 && s[0] != c {
        lemma_find_char_props(s.skip(1), c);
        let f = find_char(s, c);
        assert forall|i: int| 0 <= i < f implies s[i] != c by {
            if i > 0 {
                assert(s.skip(1)[i - 1] == s[i]);
            }
        }
        if f < s.len() {
            assert(s.skip(1)[f - 1] == s[f]);
        }
    }
}

/// The text cut at newlines; a trailing newline opens no extra empty line.
pub open spec fn split_lines(s: Seq<char>) -> Seq<Seq<char>>
    decreases s.len(),
{
    if s.len() == 0 {
        Seq::empty()
    } else {
        let i = find_char(s, '\n');
        if 0 <= i < s.len() {
            seq![s.take(i)] + split_lines(s.skip(i + 1))
        } else {
            seq![s]
        }
    }
}

/// Splitting takes a newline-free first line off the front.
pub proof fn lemma_split_prepend_line(l: Seq<char>, rest: Seq<char>)
    requires
        forall|i: int| 0 <= i < l.len() ==> l[i] != '\n',
    ensures
        split_lines(l + seq!['\n'] + rest) == seq![l] + split_lines(rest),
{
    let s = l + seq!['\n'] + rest;
    lemma_find_char_props(s, '\n');
    let f = find_char(s, '\n');
    assert(s[l.len() as int] == '\n');
    assert(forall|i: int| 0 <= i < l.len() ==> s[i] == l[i]);
    if f < l.len() {
        assert(s[f] != '\n');
        assert(false);
    }
    if f > l.len() {
        assert(s[l.len() as int] != '\n');
        assert(false);
    }
    assert(f == l.len());
    assert(s.take(f) =~= l);
    assert(s.skip(f + 1) =~= rest);
    assert(split_lines(s) == seq![l] + split_lines(rest));
}

/// The line-by-line parse, carrying the groups read so far: each `[header]`
/// opens a group, each `key=value` line goes into the last one.
pub open spec fn parse_lines(
    lines: Seq<Seq<char>>,
    groups: Seq<(Seq<char>, Map<Seq<char>, (Seq<char>, bool)>)>,
) -> Option<Seq<(Seq<char>, Map<Seq<char>, (Seq<char>, bool)>)>>
    decreases lines.len(),
{
    if lines.len() == 0 {
        Some(groups)
    } else {
        let l = lines[0];
        if l.len() == 0 {
            parse_lines(lines.skip(1), groups)
        } else if l[0] == '[' {
            if l.len() >= 2 && l[l.len() - 1] == ']' {
                parse_lines(
                    lines.skip(1),
                    groups.push((l.subrange(1, l.len() - 1), Map::empty())),
                )
            } else {
                None
            }
        } else {
            let e = find_char(l, '=');
            if 0 <= e < l.len() && groups.len() > 0 {
                let g = groups.last();
                parse_lines(
                    lines.skip(1),
                    groups.update(
                        groups.len() - 1,
                        (g.0, g.1.insert(l.take(e), (l.skip(e + 1), false))),
                    ),
                )
            } else {
                None
            }
        }
    }
}

/// What decoding a text yields: the groups in order of first appearance.
pub open spec fn spec_parse(text: Seq<char>) -> Option<
    Seq<(Seq<char>, Map<Seq<char>, (Seq<char>, bool)>)>,
> {
    parse_lines(split_lines(text), Seq::empty())
}

/// Upserting the parsed groups in order: what a decoded settings instance
/// holds.
pub open spec fn fold_groups(
    m: Map<Seq<char>, Map<Seq<char>, (Seq<char>, bool)>>,
    groups: Seq<(Seq<char>, Map<Seq<char>, (Seq<char>, bool)>)>,
) -> Map<Seq<char>, Map<Seq<char>, (Seq<char>, bool)>>
    decreases groups.len(),
{
    if groups.len() == 0 {
        m
    } else {
        fold_groups(upsert_section(m, groups[0].0, groups[0].1), groups.skip(1))
    }
}

/// The decoded map view of a text, if it parses.
pub open spec fn spec_decode(text: Seq<char>) -> Option<
    Map<Seq<char>, Map<Seq<char>, (Seq<char>, bool)>>,
> {
    match spec_parse(text) {
        Some(gs) => Some(fold_groups(Map::empty(), gs)),
        None => None,
    }
}

/// No newline anywhere in the piece of text.
pub open spec fn no_newline(s: Seq<char>) -> bool {
    forall|i: int| 0 <= i < s.len() ==> s[i] != '\n'
}

/// A pair the format can carry faithfully: the unescaped format loses pairs
/// whose key is empty, starts with `[`, or holds `=` or a newline, and pairs
/// whose value holds a newline.
pub open spec fn encodable_pair(p: SettingsPair) -> bool {
    &&& p.key@.len() > 0
    &&& p.key@[0] != '['
    &&& no_newline(p.key@)
    &&& forall|i: int| 0 <= i < p.key@.len() ==> p.key@[i] != '='
    &&& no_newline(p.value@)
}

/// A section the format can carry faithfully.
pub open spec fn encodable_section(s: SettingsSection) -> bool {
    &&& no_newline(s.name@)
    &&& forall|i: int| 0 <= i < s.pairs@.len() ==> encodable_pair(#[trigger] s.pairs@[i])
}

/// A section list the format can carry faithfully.
pub open spec fn encodable(sections: Seq<SettingsSection>) -> bool {
    forall|i: int| 0 <= i < sections.len() ==> encodable_section(#[trigger] sections[i])
}

/// The pair lines of a section, without their newlines.
pub open spec fn pair_lines(ps: Seq<SettingsPair>) -> Seq<Seq<char>>
    decreases ps.len(),
{
    if ps.len() == 0 {
        Seq::empty()
    } else {
        seq![ps[0].key@ + seq!['='] + ps[0].value@] + pair_lines(ps.skip(1))
    }
}

/// Inserting a pair list into a pair map the way the parser reads pair
/// lines: in order, flags off.
pub open spec fn insert_loaded(
    m: Map<Seq<char>, (Seq<char>, bool)>,
    ps: Seq<SettingsPair>,
) -> Map<Seq<char>, (Seq<char>, bool)>
    decreases ps.len(),
{
    if ps.len() == 0 {
        m
    } else {
        insert_loaded(m.insert(ps[0].key@, (ps[0].value@, false)), ps.skip(1))
    }
}

/// The parser's pair insertions build exactly the pair map view of an
/// unselected pair list.
proof fn lemma_insert_loaded_view(m: Map<Seq<char>, (Seq<char>, bool)>, ps: Seq<SettingsPair>)
    requires
        none_selected(ps),
    ensures
        insert_loaded(m, ps) == m.union_prefer_right(pair_view(ps)),
    decreases ps.len(),
{
    let entries = ps.map_values(crate::section::pair_entry());
    lemma_insert_loaded_entries(m, ps);
    crate::keyed::lemma_insert_entries(m, entries);
}

proof fn lemma_insert_loaded_entries(m: Map<Seq<char>, (Seq<char>, bool)>, ps: Seq<SettingsPair>)
    requires
        none_selected(ps),
    ensures
        insert_loaded(m, ps) == crate::keyed::insert_entries(
            m,
            ps.map_values(crate::section::pair_entry()),
        ),
    decreases ps.len(),
{
    let entries = ps.map_values(crate::section::pair_entry());
    if ps.len() == 0 {
    } else {
        assert(entries[0] == (ps[0].key@, (ps[0].value@, ps[0].is_selected)));
        assert(!ps[0].is_selected);
        assert(forall|i: int| 0 <= i < ps.skip(1).len() ==> !(#[trigger] ps.skip(1)[i]).is_selected);
        lemma_insert_loaded_entries(m.insert(ps[0].key@, (ps[0].value@, false)), ps.skip(1));
        assert(ps.skip(1).map_values(crate::section::pair_entry()) =~= entries.skip(1));
    }
}

/// Splitting the encoded pair block takes off one pair line per pair, then
/// the blank separator line.
proof fn lemma_split_pair_lines(ps: Seq<SettingsPair>, t: Seq<char>)
    requires
        forall|i: int| 0 <= i < ps.len() ==> encodable_pair(#[trigger] ps[i]),
    ensures
        split_lines(encode_pairs(ps) + seq!['\n'] + t) == pair_lines(ps) + seq![
            Seq::<char>::empty(),
        ] + split_lines(t),
    decreases ps.len(),
{
    if ps.len() == 0 {
        assert(encode_pairs(ps) + seq!['\n'] + t =~= Seq::<char>::empty() + seq!['\n'] + t);
        lemma_split_prepend_line(Seq::<char>::empty(), t);
        assert(pair_lines(ps) + seq![Seq::<char>::empty()] + split_lines(t) =~= seq![
            Seq::<char>::empty(),
        ] + split_lines(t));
    } else {
        let l0 = ps[0].key@ + seq!['='] + ps[0].value@;
        let rest = encode_pairs(ps.skip(1)) + seq!['\n'] + t;
        assert(encodable_pair(ps[0]));
        assert forall|i: int| 0 <= i < l0.len() implies l0[i] != '\n' by {
            if i < ps[0].key@.len() {
                assert(l0[i] == ps[0].key@[i]);
            } else if i > ps[0].key@.len() {
                assert(l0[i] == ps[0].value@[i - ps[0].key@.len() - 1]);
            }
        }
        assert(encode_pairs(ps) + seq!['\n'] + t =~= l0 + seq!['\n'] + rest);
        lemma_split_prepend_line(l0, rest);
        assert(forall|i: int| 0 <= i < ps.skip(1).len() ==> encodable_pair(#[trigger] ps.skip(1)[i]));
        lemma_split_pair_lines(ps.skip(1), t);
        assert(pair_lines(ps) + seq![Seq::<char>::empty()] + split_lines(t) =~= seq![l0] + (
        pair_lines(ps.skip(1)) + seq![Seq::<char>::empty()] + split_lines(t)));
    }
}

/// The parser reads an encoded pair block into the last open group.
proof fn lemma_parse_pair_lines(
    ps: Seq<SettingsPair>,
    rest: Seq<Seq<char>>,
    groups: Seq<(Seq<char>, Map<Seq<char>, (Seq<char>, bool)>)>,
)
    requires
        forall|i: int| 0 <= i < ps.len() ==> encodable_pair(#[trigger] ps[i]),
        groups.len() > 0,
    ensures
        parse_lines(pair_lines(ps) + rest, groups) == parse_lines(
            rest,
            groups.update(
                groups.len() - 1,
                (groups.last().0, insert_loaded(groups.last().1, ps)),
            ),
        ),
    decreases ps.len(),
{
    if ps.len() == 0 {
        assert(pair_lines(ps) + rest =~= rest);
        assert(groups.update(groups.len() - 1, (groups.last().0, groups.last().1)) =~= groups);
    } else {
        let l0 = ps[0].key@ + seq!['='] + ps[0].value@;
        let lines = pair_lines(ps) + rest;
        assert(encodable_pair(ps[0]));
        assert(lines[0] == l0);
        assert(l0.len() == ps[0].key@.len() + 1 + ps[0].value@.len());
        assert(l0[0] == ps[0].key@[0]);
        assert(l0[0] != '[');
        lemma_find_char_props(l0, '=');
        let f = find_char(l0, '=');
        assert(l0[ps[0].key@.len() as int] == '=');
        assert(forall|i: int| 0 <= i < ps[0].key@.len() ==> l0[i] == ps[0].key@[i]);
        if f < ps[0].key@.len() {
            assert(l0[f] != '=');
            assert(false);
        }
        if f > ps[0].key@.len() {
            assert(l0[ps[0].key@.len() as int] != '=');
            assert(false);
        }
        assert(f == ps[0].key@.len());
        assert(l0.take(f) =~= ps[0].key@);
        assert(l0.skip(f + 1) =~= ps[0].value@);
        let g1 = groups.update(
            groups.len() - 1,
            (groups.last().0, groups.last().1.insert(ps[0].key@, (ps[0].value@, false))),
        );
        assert(parse_lines(lines, groups) == parse_lines(lines.skip(1), g1));
        assert(lines.skip(1) =~= pair_lines(ps.skip(1)) + rest);
        assert(forall|i: int| 0 <= i < ps.skip(1).len() ==> encodable_pair(#[trigger] ps.skip(1)[i]));
        lemma_parse_pair_lines(ps.skip(1), rest, g1);
        assert(g1.last() == (groups.last().0, groups.last().1.insert(
            ps[0].key@,
            (ps[0].value@, false),
        )));
        assert(g1.update(
            g1.len() - 1,
            (g1.last().0, insert_loaded(g1.last().1, ps.skip(1))),
        ) =~= groups.update(
            groups.len() - 1,
            (groups.last().0, insert_loaded(groups.last().1, ps)),
        ));
    }
}

/// The parser reads the whole encoded text into the sections' own entries,
/// appended to whatever groups stood open before.
proof fn lemma_parse_encoded(
    sections: Seq<SettingsSection>,
    groups: Seq<(Seq<char>, Map<Seq<char>, (Seq<char>, bool)>)>,
)
    requires
        encodable(sections),
        sections_unselected(sections),
    ensures
        parse_lines(split_lines(encode_sections(sections)), groups) == Some(
            groups + sections.map_values(section_entry()),
        ),
    decreases sections.len(),
{
    if sections.len() == 0 {
        assert(split_lines(encode_sections(sections)) =~= Seq::<Seq<char>>::empty());
        assert(groups + sections.map_values(section_entry()) =~= groups);
    } else {
        let s0 = sections[0];
        assert(encodable_section(s0));
        assert(!s0.is_selected && none_selected(s0.pairs@));
        let header = seq!['['] + s0.name@ + seq![']'];
        let rest_text = encode_sections(sections.skip(1));
        let block = encode_pairs(s0.pairs@) + seq!['\n'] + rest_text;
        assert(encode_sections(sections) =~= header + seq!['\n'] + block);
        assert forall|i: int| 0 <= i < header.len() implies header[i] != '\n' by {
            if 0 < i < header.len() - 1 {
                assert(header[i] == s0.name@[i - 1]);
            }
        }
        lemma_split_prepend_line(header, block);
        lemma_split_pair_lines(s0.pairs@, rest_text);
        let lines = split_lines(encode_sections(sections));
        assert(lines =~= seq![header] + (pair_lines(s0.pairs@) + seq![Seq::<char>::empty()]
            + split_lines(rest_text)));
        // the header line opens the new group
        assert(lines[0] == header);
        assert(header.len() >= 2);
        assert(header[0] == '[');
        assert(header[header.len() - 1] == ']');
        assert(header.subrange(1, header.len() - 1) =~= s0.name@);
        let g1 = groups.push((s0.name@, Map::empty()));
        assert(parse_lines(lines, groups) == parse_lines(lines.skip(1), g1));
        assert(lines.skip(1) =~= pair_lines(s0.pairs@) + (seq![Seq::<char>::empty()]
            + split_lines(rest_text)));
        // the pair lines fill it
        lemma_parse_pair_lines(
            s0.pairs@,
            seq![Seq::<char>::empty()] + split_lines(rest_text),
            g1,
        );
        lemma_insert_loaded_view(Map::empty(), s0.pairs@);
        crate::keyed::lemma_union_empty(pair_view(s0.pairs@));
        let g2 = g1.update(g1.len() - 1, (s0.name@, insert_loaded(Map::empty(), s0.pairs@)));
        assert(g2 =~= groups.push((s0.name@, pair_view(s0.pairs@))));
        // the blank separator line changes nothing
        let tail = seq![Seq::<char>::empty()] + split_lines(rest_text);
        assert(tail[0].len() == 0);
        assert(parse_lines(tail, g2) == parse_lines(tail.skip(1), g2));
        assert(tail.skip(1) =~= split_lines(rest_text));
        // the remaining sections append behind
        assert(forall|i: int|
            0 <= i < sections.skip(1).len() ==> encodable_section(#[trigger] sections.skip(1)[i]));
        assert(forall|i: int|
            0 <= i < sections.skip(1).len() ==> !(#[trigger] sections.skip(1)[i]).is_selected
                && none_selected(sections.skip(1)[i].pairs@));
        lemma_parse_encoded(sections.skip(1), g2);
        assert(sections.skip(1).map_values(section_entry()) =~= sections.map_values(
            section_entry(),
        ).skip(1));
        assert(g2 + sections.map_values(section_entry()).skip(1) =~= groups
            + sections.map_values(section_entry()));
    }
}

/// Upserting groups with fresh, pairwise distinct names is a plain override.
proof fn lemma_fold_unique(
    m: Map<Seq<char>, Map<Seq<char>, (Seq<char>, bool)>>,
    gs: Seq<(Seq<char>, Map<Seq<char>, (Seq<char>, bool)>)>,
)
    requires
        crate::keyed::unique_entry_keys(gs),
        forall|i: int| 0 <= i < gs.len() ==> !m.contains_key((#[trigger] gs[i]).0),
    ensures
        fold_groups(m, gs) == m.union_prefer_right(crate::keyed::assoc_map(gs)),
    decreases gs.len(),
{
    if gs.len() == 0 {
        crate::keyed::lemma_union_empty(m);
        assert(crate::keyed::assoc_map(gs) =~= Map::<
            Seq<char>,
            Map<Seq<char>, (Seq<char>, bool)>,
        >::empty());
    } else {
        assert(!m.contains_key(gs[0].0));
        assert(upsert_section(m, gs[0].0, gs[0].1) == m.insert(gs[0].0, gs[0].1));
        let m1 = m.insert(gs[0].0, gs[0].1);
        assert(crate::keyed::unique_entry_keys(gs.skip(1)));
        assert forall|i: int|
            0 <= i < gs.skip(1).len() implies !m1.contains_key((#[trigger] gs.skip(1)[i]).0) by {
            assert(gs.skip(1)[i] == gs[i + 1]);
            assert(gs[i + 1].0 != gs[0].0);
        }
        lemma_fold_unique(m1, gs.skip(1));
        crate::keyed::lemma_assoc_map_front(gs);
        assert(m1.union_prefer_right(crate::keyed::assoc_map(gs.skip(1)))
            =~= m.union_prefer_right(crate::keyed::assoc_map(gs)));
    }
}

/// The round trip: decoding an encoded, well-formed, wholly unselected
/// section set yields exactly its map view, section names and keys, values
/// and flags alike.  Order is not part of the map view, matching the
/// order-irrelevant reading of sections and pairs.
pub proof fn lemma_encode_decode_round_trip(s: Settings)
    requires
        s.wf(),
        encodable(s.sections@),
        sections_unselected(s.sections@),
    ensures
        spec_decode(encode_sections(s.sections@)) == Some(s.sections_map()),
{
    lemma_parse_encoded(s.sections@, Seq::empty());
    let gs = s.sections@.map_values(section_entry());
    assert(Seq::<(Seq<char>, Map<Seq<char>, (Seq<char>, bool)>)>::empty() + gs =~= gs);
    assert(spec_parse(encode_sections(s.sections@)) == Some(gs));
    assert forall|i: int, j: int| 0 <= i < j < gs.len() implies gs[i].0 != gs[j].0 by {
        assert(gs[i].0 == s.sections@[i].name@);
        assert(gs[j].0 == s.sections@[j].name@);
    }
    lemma_fold_unique(Map::empty(), gs);
    crate::keyed::lemma_union_empty(crate::keyed::assoc_map(gs));
}

impl Settings {
    /// Decodes INI-style text into a fresh, wholly unselected settings
    /// instance under the given name and source path.  Repeated headers
    /// merge into one section and a later pair wins a repeated key, as
    /// `add_section` does; malformed text is rejected, never repaired.
    pub fn from_text(name: String, path: String, text: &str) -> (r: Result<Settings, LoadError>)
        ensures
            r is Ok <==> spec_parse(text@) is Some,
            r matches Ok(s) ==> {
                &&& s.wf()
                &&& s.name == name
                &&& s.path == path
                &&& !s.is_selected
                &&& sections_unselected(s.sections@)
                &&& Some(s.sections_map()) == spec_decode(text@)
            },
    {
        let len = text.unicode_len();
        let mut groups: Vec<SettingsSection> = Vec::new();
        let mut pos: usize = 0;
        proof {
            assert(text@.skip(0) =~= text@);
            assert(groups@.map_values(section_entry()) =~= Seq::<
                (Seq<char>, Map<Seq<char>, (Seq<char>, bool)>),
            >::empty());
        }
        while pos < len
            invariant
                len == text@.len(),
                pos <= len,
                parse_lines(
                    split_lines(text@.skip(pos as int)),
                    groups@.map_values(section_entry()),
                ) == spec_parse(text@),
                forall|j: int| 0 <= j < groups@.len() ==> (#[trigger] groups@[j]).wf(),
                forall|j: int|
                    0 <= j < groups@.len() ==> !(#[trigger] groups@[j]).is_selected
                        && none_selected(groups@[j].pairs@),
            decreases len - pos,
        {
            let ghost model = groups@.map_values(section_entry());
            let mut end = pos;
            while end < len && text.get_char(end) != '\n'
                invariant
                    len == text@.len(),
                    pos <= end <= len,
                    forall|j: int| pos <= j < end ==> text@[j] != '\n',
                decreases len - end,
            {
                end += 1;
            }
            let ghost line = text@.subrange(pos as int, end as int);
            let ghost rest_lines = if end < len {
                split_lines(text@.skip(end as int + 1))
            } else {
                Seq::<Seq<char>>::empty()
            };
            proof {
                if end < len {
                    assert(text@[end as int] == '\n');
                    assert(text@.skip(pos as int) =~= line + seq!['\n'] + text@.skip(
                        end as int + 1,
                    ));
                    lemma_split_prepend_line(line, text@.skip(end as int + 1));
                    assert(split_lines(text@.skip(pos as int)) == seq![line] + rest_lines);
                } else {
                    assert(text@.skip(pos as int) =~= line);
                    lemma_find_char_props(line, '\n');
                    if find_char(line, '\n') < line.len() {
                        assert(line[find_char(line, '\n')] == '\n');
                        assert(false);
                    }
                    assert(line.len() > 0);
                    assert(split_lines(line) == seq![line]);
                    assert(split_lines(text@.skip(pos as int)) =~= seq![line] + rest_lines);
                }
                assert((seq![line] + rest_lines)[0] == line);
                assert((seq![line] + rest_lines).skip(1) =~= rest_lines);
                assert(line.len() == end - pos);
            }
            if end == pos {
                proof {
                    assert(parse_lines(rest_lines, model) == spec_parse(text@));
                }
            } else if text.get_char(pos) == '[' {
                proof {
                    assert(line[0] == text@[pos as int]);
                }
                if end - pos >= 2 && text.get_char(end - 1) == ']' {
                    let nm = text.substring_char(pos + 1, end - 1);
                    let sec = SettingsSection::new(nm.to_owned(), Vec::new());
                    groups.push(sec);
                    proof {
                        assert(line[line.len() - 1] == text@[end as int - 1]);
                        assert(line.subrange(1, line.len() - 1) =~= nm@);
                        assert(sec.pairs@.map_values(crate::section::pair_entry()) =~= Seq::<
                            (Seq<char>, (Seq<char>, bool)),
                        >::empty());
                        assert(pair_view(sec.pairs@) =~= Map::<Seq<char>, (Seq<char>, bool)>::empty());
                        assert(section_entry()(sec) == (nm@, Map::<Seq<char>, (Seq<char>, bool)>::empty()));
                        assert(groups@.map_values(section_entry()) =~= model.push(
                            (line.subrange(1, line.len() - 1), Map::empty()),
                        ));
                        assert(parse_lines(rest_lines, groups@.map_values(section_entry()))
                            == spec_parse(text@));
                    }
                } else {
                    proof {
                        assert(line[line.len() - 1] == text@[end as int - 1]);
                        assert(!(line.len() >= 2 && line[line.len() - 1] == ']'));
                        assert(spec_parse(text@) is None);
                    }
                    return Err(LoadError::Malformed);
                }
            } else {
                let mut eq = pos;
                while eq < end && text.get_char(eq) != '='
                    invariant
                        len == text@.len(),
                        pos <= eq <= end <= len,
                        forall|j: int| pos <= j < eq ==> text@[j] != '=',
                    decreases end - eq,
                {
                    eq += 1;
                }
                proof {
                    lemma_find_char_props(line, '=');
                    let f = find_char(line, '=');
                    assert(forall|i: int| 0 <= i < eq - pos ==> line[i] != '=');
                    if eq < end {
                        assert(line[eq as int - pos] == text@[eq as int]);
                        assert(line[eq as int - pos] == '=');
                        if f < eq - pos {
                            assert(line[f] != '=');
                            assert(false);
                        }
                        if f > eq - pos {
                            assert(false);
                        }
                        assert(f == eq - pos);
                    } else {
                        if f < line.len() {
                            assert(line[f] == '=');
                            assert(false);
                        }
                        assert(f == line.len());
                    }
                    assert(line[0] == text@[pos as int]);
                    assert(line[0] != '[');
                }
                if eq == end {
                    proof {
                        assert(spec_parse(text@) is None);
                    }
                    return Err(LoadError::Malformed);
                }
                if groups.len() == 0 {
                    proof {
                        assert(model.len() == 0);
                        assert(spec_parse(text@) is None);
                    }
                    return Err(LoadError::Malformed);
                }
                let key = text.substring_char(pos, eq).to_owned();
                let value = text.substring_char(eq + 1, end).to_owned();
                let gi = groups.len() - 1;
                let mut sec = groups.remove(gi);
                let ghost secpre = sec;
                sec.insert(SettingsPair::new(key, value));
                groups.push(sec);
                proof {
                    assert(key@ =~= line.take(eq as int - pos));
                    assert(value@ =~= line.skip(eq as int - pos + 1));
                    assert(sec.name@ == secpre.name@);
                    assert(pair_view(sec.pairs@) == pair_view(secpre.pairs@).insert(
                        key@,
                        (value@, false),
                    ));
                    assert(model[gi as int] == (secpre.name@, pair_view(secpre.pairs@)));
                    assert(model.last() == model[gi as int]);
                    assert(groups@.map_values(section_entry()) =~= model.update(
                        gi as int,
                        (model.last().0, model.last().1.insert(
                            line.take(eq as int - pos),
                            (line.skip(eq as int - pos + 1), false),
                        )),
                    ));
                    assert(parse_lines(rest_lines, groups@.map_values(section_entry()))
                        == spec_parse(text@));
                }
            }
            if end < len {
                pos = end + 1;
            } else {
                pos = len;
                proof {
                    assert(text@.skip(pos as int) =~= Seq::<char>::empty());
                    assert(split_lines(text@.skip(pos as int)) =~= rest_lines);
                }
            }
        }
        proof {
            assert(text@.skip(len as int) =~= Seq::<char>::empty());
            assert(split_lines(Seq::<char>::empty()) =~= Seq::<Seq<char>>::empty());
        }
        let mut s = Settings::new(name, path);
        let ghost gmodel = groups@.map_values(section_entry());
        let ghost target = fold_groups(
            Map::<Seq<char>, Map<Seq<char>, (Seq<char>, bool)>>::empty(),
            gmodel,
        );
        let ghost mut done: int = 0;
        proof {
            assert(gmodel.skip(0) =~= gmodel);
            assert(spec_parse(text@) == Some(gmodel));
        }
        while groups.len() > 0
            invariant
                s.wf(),
                !s.is_selected,
                sections_unselected(s.sections@),
                0 <= done <= gmodel.len(),
                groups@.map_values(section_entry()) == gmodel.skip(done),
                forall|j: int| 0 <= j < groups@.len() ==> (#[trigger] groups@[j]).wf(),
                forall|j: int|
                    0 <= j < groups@.len() ==> !(#[trigger] groups@[j]).is_selected
                        && none_selected(groups@[j].pairs@),
                fold_groups(s.sections_map(), gmodel.skip(done)) == target,
                s.name == name,
                s.path == path,
            decreases groups@.len(),
        {
            let ghost gpre = groups@;
            let sec = groups.remove(0);
            proof {
                assert(gpre.map_values(section_entry())[0] == section_entry()(sec));
                assert(gmodel.skip(done)[0] == (sec.name@, pair_view(sec.pairs@)));
                assert(groups@.map_values(section_entry()) =~= gmodel.skip(done).skip(1));
                assert(gmodel.skip(done).skip(1) =~= gmodel.skip(done + 1));
            }
            s.add_section(sec);
            proof {
                done = done + 1;
            }
        }
        proof {
            assert(gmodel.skip(done).len() == 0);
            assert(gmodel.skip(done) =~= Seq::<
                (Seq<char>, Map<Seq<char>, (Seq<char>, bool)>),
            >::empty());
        }
        Ok(s)
    }

    /// The serialized text of this settings instance.
    pub fn to_text(&self) -> (r: String)
        ensures
            r@ == encode_sections(self.sections@),
    {
        let mut out = String::new();
        let n = self.sections.len();
        let mut i: usize = 0;
        proof {
            assert(self.sections@.skip(0) =~= self.sections@);
        }
        while i < n
            invariant
                n == self.sections@.len(),
                i <= n,
                out@ + encode_sections(self.sections@.skip(i as int)) == encode_sections(
                    self.sections@,
                ),
            decreases n - i,
        {
            let ghost pre = out@;
            let sec = &self.sections[i];
            out.append("[");
            out.append(sec.name.as_str());
            out.append("]");
            out.append("\n");
            proof {
                reveal_strlit("[");
                reveal_strlit("]");
                reveal_strlit("\n");
                assert(out@ =~= pre + seq!['['] + sec.name@ + seq![']'] + seq!['\n']);
            }
            let ghost mid = out@;
            let m = sec.pairs.len();
            let mut k: usize = 0;
            proof {
                assert(sec.pairs@.skip(0) =~= sec.pairs@);
            }
            while k < m
                invariant
                    m == sec.pairs@.len(),
                    k <= m,
                    out@ + encode_pairs(sec.pairs@.skip(k as int)) == mid + encode_pairs(
                        sec.pairs@,
                    ),
                decreases m - k,
            {
                let ghost pk = out@;
                let p = &sec.pairs[k];
                out.append(p.key.as_str());
                out.append("=");
                out.append(p.value.as_str());
                out.append("\n");
                proof {
                    reveal_strlit("=");
                    reveal_strlit("\n");
                    assert(sec.pairs@.skip(k as int)[0] == sec.pairs@[k as int]);
                    assert(sec.pairs@.skip(k as int).skip(1) =~= sec.pairs@.skip(k as int + 1));
                    assert(encode_pairs(sec.pairs@.skip(k as int)) == encode_pair(
                        sec.pairs@[k as int],
                    ) + encode_pairs(sec.pairs@.skip(k as int + 1)));
                    assert(out@ =~= pk + encode_pair(sec.pairs@[k as int]));
                    assert(out@ + encode_pairs(sec.pairs@.skip(k as int + 1)) =~= pk
                        + encode_pairs(sec.pairs@.skip(k as int)));
                }
                k += 1;
            }
            out.append("\n");
            proof {
                reveal_strlit("\n");
                assert(sec.pairs@.skip(m as int) =~= Seq::<SettingsPair>::empty());
                assert(encode_pairs(sec.pairs@.skip(m as int)) =~= Seq::<char>::empty());
                assert(self.sections@.skip(i as int)[0] == self.sections@[i as int]);
                assert(self.sections@.skip(i as int).skip(1) =~= self.sections@.skip(
                    i as int + 1,
                ));
                assert(encode_sections(self.sections@.skip(i as int)) == encode_section(
                    self.sections@[i as int],
                ) + seq!['\n'] + encode_sections(self.sections@.skip(i as int + 1)));
                assert(out@ =~= mid + encode_pairs(sec.pairs@) + seq!['\n']);
                assert(out@ + encode_sections(self.sections@.skip(i as int + 1)) =~= pre
                    + encode_sections(self.sections@.skip(i as int)));
            }
            i += 1;
        }
        proof {
            assert(self.sections@.skip(n as int) =~= Seq::<SettingsSection>::empty());
            assert(encode_sections(self.sections@.skip(n as int)) =~= Seq::<char>::empty());
            assert(out@ =~= out@ + encode_sections(self.sections@.skip(n as int)));
        }
        out
    }
}

} // verus!
