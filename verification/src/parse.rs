//! Reading a fixture text back into a fixture.
use vstd::prelude::*;
use vstd::string::*;
use crate::model::{
    attrs_view, muts_view, nodes_view, opt_view, strings_view, Attr, Config, Fixture, Mut,
    MutModel, Node, NodeModel, default_knobs, tiny_sizes, default_selectors,
};
use crate::text::{
    chars_of, eq_str, find_char, first_word, has_prefix, is_white_space, leading_space,
    leading_word, lines, lines_of, parse_i32, parse_i32_spec, push_char, push_str, slice, split,
    split_on, split_once_or_all, starts_with, string_of, tail,
};

verus! {

/// The section of the fixture text that a line falls in.
pub enum Section {
    Outside,
    Base,
    Css,
    Tree,
    Muts,
}

/// What has been read so far.
pub struct ParseState {
    pub section: Section,
    pub name: Seq<char>,
    pub base: Seq<char>,
    pub css: Seq<char>,
    pub nodes: Seq<NodeModel>,
    pub muts: Seq<MutModel>,
}

/// The classes of a classes cell: none for an empty cell.
pub open spec fn classes_of_cell(cell: Seq<char>) -> Seq<Seq<char>> {
    if cell.len() == 0 {
        Seq::<Seq<char>>::empty()
    } else {
        split_on(cell, ',')
    }
}

/// The attributes of an attributes cell: none for an empty cell; a pair without `=`
/// has an empty value.
pub open spec fn attrs_of_cell(cell: Seq<char>) -> Seq<(Seq<char>, Seq<char>)> {
    if cell.len() == 0 {
        Seq::<(Seq<char>, Seq<char>)>::empty()
    } else {
        let ps = split_on(cell, ',');
        Seq::new(ps.len(), |i: int| split_once_or_all(ps[i], '='))
    }
}

/// The id of an id cell: `-` is none.
pub open spec fn id_of_cell(cell: Seq<char>) -> Option<Seq<char>> {
    if cell == seq!['-'] {
        None
    } else {
        Some(cell)
    }
}

/// A line of the tree section read as a node.
pub open spec fn tree_line_spec(line: Seq<char>) -> Result<NodeModel, Seq<char>> {
    let cols = split_on(line, '\t');
    if cols.len() < 4 {
        Err("bad tree line: "@ + line)
    } else {
        match parse_i32_spec(cols[1]) {
            None => Err("parent"@),
            Some(p) => Ok(
                NodeModel {
                    parent: p as int,
                    tag: cols[2],
                    dom_id: id_of_cell(cols[3]),
                    classes: if cols.len() > 4 {
                        classes_of_cell(cols[4])
                    } else {
                        Seq::<Seq<char>>::empty()
                    },
                    attrs: if cols.len() > 5 {
                        attrs_of_cell(cols[5])
                    } else {
                        Seq::<(Seq<char>, Seq<char>)>::empty()
                    },
                },
            ),
        }
    }
}

/// A line of the mutation section read as a mutation.
pub open spec fn mut_line_spec(line: Seq<char>) -> Result<MutModel, Seq<char>> {
    let cols = split_on(line, '\t');
    let n = cols.len();
    let head = cols[0];
    if line == "restyle"@ {
        Ok(MutModel::Restyle)
    } else if head == "+class"@ && n >= 3 {
        match parse_i32_spec(cols[1]) {
            None => Err("id"@),
            Some(id) => Ok(MutModel::AddClass { id: id as int, class: cols[2] }),
        }
    } else if head == "-class"@ && n >= 2 {
        match parse_i32_spec(cols[1]) {
            None => Err("id"@),
            Some(id) => Ok(MutModel::RemoveClass { id: id as int }),
        }
    } else if head == "+attr"@ && n >= 3 {
        match parse_i32_spec(cols[1]) {
            None => Err("id"@),
            Some(id) => Ok(
                MutModel::SetAttr {
                    id: id as int,
                    name: split_once_or_all(cols[2], '=').0,
                    value: split_once_or_all(cols[2], '=').1,
                },
            ),
        }
    } else if head == "-attr"@ && n >= 3 {
        match parse_i32_spec(cols[1]) {
            None => Err("id"@),
            Some(id) => Ok(MutModel::RemoveAttr { id: id as int, name: cols[2] }),
        }
    } else if head == "+leaf"@ && n >= 6 {
        match parse_i32_spec(cols[1]) {
            None => Err("id"@),
            Some(id) => match parse_i32_spec(cols[2]) {
                None => Err("parent"@),
                Some(parent) => match parse_i32_spec(cols[3]) {
                    None => Err("at"@),
                    Some(at) => Ok(
                        MutModel::AddLeaf {
                            id: id as int,
                            parent: parent as int,
                            at: at as int,
                            tag: cols[4],
                            dom_id: id_of_cell(cols[5]),
                            classes: if n > 6 {
                                classes_of_cell(cols[6])
                            } else {
                                Seq::<Seq<char>>::empty()
                            },
                            attrs: if n > 7 {
                                attrs_of_cell(cols[7])
                            } else {
                                Seq::<(Seq<char>, Seq<char>)>::empty()
                            },
                        },
                    ),
                },
            },
        }
    } else if head == "-leaf"@ && n >= 2 {
        match parse_i32_spec(cols[1]) {
            None => Err("id"@),
            Some(id) => Ok(MutModel::RemoveLeaf { id: id as int }),
        }
    } else {
        Err("bad mut line: "@ + line)
    }
}

/// The name that a `# name=` comment gives: its first word, or `parsed`.
pub open spec fn name_of(rest: Seq<char>) -> Seq<char> {
    match first_word(rest) {
        Some(w) => w,
        None => "parsed"@,
    }
}

/// Reads one line.
pub open spec fn parse_step(st: ParseState, line: Seq<char>) -> Result<ParseState, Seq<char>> {
    if has_prefix(line, "# "@) {
        let rest = line.skip(2);
        if has_prefix(rest, "name="@) {
            Ok(ParseState { name: name_of(rest.skip(5)), ..st })
        } else {
            Ok(st)
        }
    } else if line == "---base---"@ {
        Ok(ParseState { section: Section::Base, ..st })
    } else if line == "---css---"@ {
        Ok(ParseState { section: Section::Css, ..st })
    } else if line == "---tree---"@ {
        Ok(ParseState { section: Section::Tree, ..st })
    } else if line == "---mut---"@ {
        Ok(ParseState { section: Section::Muts, ..st })
    } else {
        match st.section {
            Section::Base => Ok(ParseState { base: st.base + line.push('\n'), ..st }),
            Section::Css => Ok(ParseState { css: st.css + line.push('\n'), ..st }),
            Section::Tree => match tree_line_spec(line) {
                Ok(n) => Ok(ParseState { nodes: st.nodes.push(n), ..st }),
                Err(e) => Err(e),
            },
            Section::Muts => if line.len() == 0 {
                Ok(st)
            } else {
                match mut_line_spec(line) {
                    Ok(m) => Ok(ParseState { muts: st.muts.push(m), ..st }),
                    Err(e) => Err(e),
                }
            },
            Section::Outside => Ok(st),
        }
    }
}

/// Nothing read yet.
pub open spec fn initial_state() -> ParseState {
    ParseState {
        section: Section::Outside,
        name: "parsed"@,
        base: Seq::<char>::empty(),
        css: Seq::<char>::empty(),
        nodes: Seq::<NodeModel>::empty(),
        muts: Seq::<MutModel>::empty(),
    }
}

/// Reads the lines in order; the first error stops the reading.
pub open spec fn parse_lines(ls: Seq<Seq<char>>) -> Result<ParseState, Seq<char>>
    decreases ls.len(),
{
    if ls.len() == 0 {
        Ok(initial_state())
    } else {
        match parse_lines(ls.drop_last()) {
            Ok(st) => parse_step(st, ls.last()),
            Err(e) => Err(e),
        }
    }
}

/// What reading a fixture text gives: its state, or the error; a text without tree
/// nodes is refused.
pub open spec fn parse_spec(text: Seq<char>) -> Result<ParseState, Seq<char>> {
    match parse_lines(lines_of(text)) {
        Ok(st) => if st.nodes.len() == 0 {
            Err("no tree"@)
        } else {
            Ok(st)
        },
        Err(e) => Err(e),
    }
}

/// `Config::tiny()` with the given name and element count.
pub open spec fn parsed_config(c: Config, name: Seq<char>, elements: int) -> bool {
    &&& c.name@ == name
    &&& default_knobs(c)
    &&& default_selectors(c)
    &&& c.element_type_count == 6
    &&& c.class_count == 20
    &&& c.attribute_count == 6
    &&& c.attribute_value_count == 8
    &&& c.rule_count == 40
    &&& c.element_count == elements as i32
    &&& c.maximum_tree_depth == 4
    &&& c.maximum_tree_width == 8
    &&& c.step_count == 1
    &&& c.mutations_per_step == 8
}

/// Once reading has failed, later lines do not change the error.
pub proof fn lemma_parse_err_sticks(ls: Seq<Seq<char>>, k: int, e: Seq<char>)
    requires
        0 <= k <= ls.len(),
        parse_lines(ls.take(k)) == Err::<ParseState, Seq<char>>(e),
    ensures
        parse_lines(ls) == Err::<ParseState, Seq<char>>(e),
    decreases ls.len() - k,
{
    if k == ls.len() {
        assert(ls.take(k) == ls);
    } else {
        assert(ls.take(k + 1).drop_last() == ls.take(k));
        lemma_parse_err_sticks(ls, k + 1, e);
    }
}

// ---------------------------------------------------------------- exec

/// The pieces of `t` before and after its first `c`, or all of `t` and nothing.
fn split_once_exec(t: &[char], c: char) -> (r: (Vec<char>, Vec<char>))
    ensures
        (r.0@, r.1@) == split_once_or_all(t@, c),
{
    let mut i: usize = 0;
    while i < t.len()
        invariant
            i <= t.len(),
            forall|j: int| 0 <= j < i ==> t@[j] != c,
        decreases t.len() - i,
    {
        if t[i] == c {
            proof {
                lemma_find_char_at(t@, c, i as int);
            }
            return (slice(t, 0, i), tail(t, i + 1));
        }
        i = i + 1;
    }
    proof {
        lemma_find_char_none(t@, c);
    }
    (slice(t, 0, t.len()), Vec::new())
}

pub proof fn lemma_find_char_at(s: Seq<char>, c: char, i: int)
    requires
        0 <= i < s.len(),
        s[i] == c,
        forall|j: int| 0 <= j < i ==> s[j] != c,
    ensures
        find_char(s, c) == Some(i),
    decreases s.len(),
{
    if i > 0 {
        assert(s[0] != c);
        lemma_find_char_at(s.drop_first(), c, i - 1);
    }
}

proof fn lemma_find_char_none(s: Seq<char>, c: char)
    requires
        forall|j: int| 0 <= j < s.len() ==> s[j] != c,
    ensures
        find_char(s, c) is None,
    decreases s.len(),
{
    if s.len() > 0 {
        assert(s[0] != c);
        lemma_find_char_none(s.drop_first(), c);
    }
}

/// Whether `c` has the Unicode `White_Space` property.
fn white_space(c: char) -> (b: bool)
    ensures
        b == is_white_space(c),
{
    ('\u{9}' <= c && c <= '\u{d}') || c == ' ' || c == '\u{85}' || c == '\u{a0}' || c
        == '\u{1680}' || ('\u{2000}' <= c && c <= '\u{200a}') || c == '\u{2028}' || c
        == '\u{2029}' || c == '\u{202f}' || c == '\u{205f}' || c == '\u{3000}'
}

pub proof fn lemma_leading_space(s: Seq<char>, i: int)
    requires
        0 <= i <= s.len(),
        forall|j: int| 0 <= j < i ==> is_white_space(s[j]),
        i == s.len() || !is_white_space(s[i]),
    ensures
        leading_space(s) == i,
    decreases s.len(),
{
    if i > 0 {
        lemma_leading_space(s.drop_first(), i - 1);
    }
}

pub proof fn lemma_leading_word(s: Seq<char>, i: int)
    requires
        0 <= i <= s.len(),
        forall|j: int| 0 <= j < i ==> !is_white_space(s[j]),
        i == s.len() || is_white_space(s[i]),
    ensures
        leading_word(s) == i,
    decreases s.len(),
{
    if i > 0 {
        lemma_leading_word(s.drop_first(), i - 1);
    }
}

/// The name a `# name=` comment gives: its first word, or `parsed`.
fn name_exec(rest: &[char]) -> (r: String)
    ensures
        r@ == name_of(rest@),
{
    let mut i: usize = 0;
    while i < rest.len() && white_space(rest[i])
        invariant
            i <= rest.len(),
            forall|j: int| 0 <= j < i ==> is_white_space(rest@[j]),
        decreases rest.len() - i,
    {
        i = i + 1;
    }
    proof {
        lemma_leading_space(rest@, i as int);
    }
    if i == rest.len() {
        return String::from_str("parsed");
    }
    let mut j: usize = i;
    while j < rest.len() && !white_space(rest[j])
        invariant
            i <= j <= rest.len(),
            forall|k: int| i <= k < j ==> !is_white_space(rest@[k]),
        decreases rest.len() - j,
    {
        j = j + 1;
    }
    proof {
        let r = rest@.skip(i as int);
        assert forall|k: int| 0 <= k < j - i implies !is_white_space(r[k]) by {
            assert(r[k] == rest@[i + k]);
        }
        if j < rest.len() {
            assert(r[j - i] == rest@[j as int]);
        }
        lemma_leading_word(r, j - i);
        assert(r.take(j - i) == rest@.subrange(i as int, j as int));
    }
    let w = slice(rest, i, j);
    string_of(w.as_slice())
}

/// A string with the characters of `a` followed by those of `b`.
fn concat_error(a: &str, b: &[char]) -> (r: String)
    ensures
        r@ == a@ + b@,
{
    let mut s = String::from_str(a);
    let mut i: usize = 0;
    while i < b.len()
        invariant
            i <= b.len(),
            s@ == a@ + b@.take(i as int),
        decreases b.len() - i,
    {
        push_char(&mut s, b[i]);
        i = i + 1;
        proof {
            assert(s@ =~= a@ + b@.take(i as int));
        }
    }
    proof {
        assert(b@.take(b.len() as int) == b@);
    }
    s
}

/// The classes of a classes cell: none for an empty cell, else the comma-separated items.
pub fn parse_classes(cell: &str) -> (r: Vec<String>)
    ensures
        strings_view(r@) == classes_of_cell(cell@),
{
    let cs = chars_of(cell);
    classes_in(cs.as_slice())
}

/// The attributes of an attributes cell: none for an empty cell, else one per
/// comma-separated item, split at its first `=` (no `=`: an empty value).
pub fn parse_attrs(cell: &str) -> (r: Vec<Attr>)
    ensures
        attrs_view(r@) == attrs_of_cell(cell@),
{
    let cs = chars_of(cell);
    attrs_in(cs.as_slice())
}

/// Reads a line of the mutation section.
pub fn parse_mut_line(line: &str) -> (r: Result<Mut, String>)
    ensures
        match r {
            Ok(m) => mut_line_spec(line@) == Ok::<MutModel, Seq<char>>(m@),
            Err(e) => mut_line_spec(line@) == Err::<MutModel, Seq<char>>(e@),
        },
{
    let cs = chars_of(line);
    mut_in(cs.as_slice())
}

/// The classes of a classes cell.
fn classes_in(cell: &[char]) -> (r: Vec<String>)
    ensures
        strings_view(r@) == classes_of_cell(cell@),
{
    let mut out: Vec<String> = Vec::new();
    if cell.len() == 0 {
        proof {
            assert(strings_view(out@) =~= classes_of_cell(cell@));
        }
        return out;
    }
    let pieces = split(cell, ',');
    let mut i: usize = 0;
    while i < pieces.len()
        invariant
            i <= pieces@.len(),
            cell@.len() > 0,
            pieces@.len() == split_on(cell@, ',').len(),
            forall|k: int| 0 <= k < pieces@.len() ==> #[trigger] pieces@[k]@ == split_on(
                cell@,
                ',',
            )[k],
            out@.len() == i,
            forall|k: int| 0 <= k < i ==> #[trigger] out@[k]@ == split_on(cell@, ',')[k],
        decreases pieces@.len() - i,
    {
        out.push(string_of(pieces[i].as_slice()));
        i = i + 1;
    }
    proof {
        assert(strings_view(out@) =~= classes_of_cell(cell@));
    }
    out
}

/// The attributes of an attributes cell.
fn attrs_in(cell: &[char]) -> (r: Vec<Attr>)
    ensures
        attrs_view(r@) == attrs_of_cell(cell@),
{
    let mut out: Vec<Attr> = Vec::new();
    if cell.len() == 0 {
        proof {
            assert(attrs_view(out@) =~= attrs_of_cell(cell@));
        }
        return out;
    }
    let pieces = split(cell, ',');
    let ghost ps = split_on(cell@, ',');
    let mut i: usize = 0;
    while i < pieces.len()
        invariant
            i <= pieces@.len(),
            cell@.len() > 0,
            ps == split_on(cell@, ','),
            pieces@.len() == ps.len(),
            forall|k: int| 0 <= k < pieces@.len() ==> #[trigger] pieces@[k]@ == ps[k],
            out@.len() == i,
            forall|k: int| 0 <= k < i ==> #[trigger] out@[k]@ == split_once_or_all(ps[k], '='),
        decreases pieces@.len() - i,
    {
        let (n, v) = split_once_exec(pieces[i].as_slice(), '=');
        out.push(Attr { name: string_of(n.as_slice()), value: string_of(v.as_slice()) });
        i = i + 1;
    }
    proof {
        assert(attrs_view(out@) =~= attrs_of_cell(cell@));
    }
    out
}

/// The id of an id cell.
fn id_of_cell_exec(cell: &[char]) -> (r: Option<String>)
    ensures
        opt_view(r) == id_of_cell(cell@),
{
    if eq_str(cell, "-") {
        proof {
            reveal_strlit("-");
            assert("-"@ =~= seq!['-']);
        }
        None
    } else {
        proof {
            reveal_strlit("-");
            assert("-"@ =~= seq!['-']);
        }
        Some(string_of(cell))
    }
}

/// Reads a line of the tree section.
fn parse_tree_line(line: &[char]) -> (r: Result<Node, String>)
    ensures
        match r {
            Ok(n) => tree_line_spec(line@) == Ok::<NodeModel, Seq<char>>(n@),
            Err(e) => tree_line_spec(line@) == Err::<NodeModel, Seq<char>>(e@),
        },
{
    let cols = split(line, '\t');
    let ghost cs = split_on(line@, '\t');
    if cols.len() < 4 {
        return Err(concat_error("bad tree line: ", line));
    }
    let parent = match parse_i32(cols[1].as_slice()) {
        Some(p) => p,
        None => {
            return Err(String::from_str("parent"));
        },
    };
    let classes = if cols.len() > 4 {
        classes_in(cols[4].as_slice())
    } else {
        Vec::new()
    };
    let attrs = if cols.len() > 5 {
        attrs_in(cols[5].as_slice())
    } else {
        Vec::new()
    };
    let n = Node {
        parent,
        tag: string_of(cols[2].as_slice()),
        dom_id: id_of_cell_exec(cols[3].as_slice()),
        classes,
        attrs,
    };
    proof {
        assert(cols@[1]@ == cs[1]);
        assert(cols@[2]@ == cs[2]);
        assert(cols@[3]@ == cs[3]);
        if cols.len() > 4 {
            assert(cols@[4]@ == cs[4]);
        } else {
            assert(strings_view(n.classes@) =~= Seq::<Seq<char>>::empty());
        }
        if cols.len() > 5 {
            assert(cols@[5]@ == cs[5]);
        } else {
            assert(attrs_view(n.attrs@) =~= Seq::<(Seq<char>, Seq<char>)>::empty());
        }
    }
    Ok(n)
}

/// Reads a line of the mutation section.
fn mut_in(line: &[char]) -> (r: Result<Mut, String>)
    ensures
        match r {
            Ok(m) => mut_line_spec(line@) == Ok::<MutModel, Seq<char>>(m@),
            Err(e) => mut_line_spec(line@) == Err::<MutModel, Seq<char>>(e@),
        },
{
    if eq_str(line, "restyle") {
        return Ok(Mut::Restyle);
    }
    let cols = split(line, '\t');
    let ghost cs = split_on(line@, '\t');
    proof {
        crate::text::lemma_split_nonempty(line@, '\t');
        assert(cols@[0]@ == cs[0]);
    }
    let n = cols.len();
    let head = cols[0].as_slice();
    if eq_str(head, "+class") && n >= 3 {
        proof {
            assert(cols@[1]@ == cs[1]);
            assert(cols@[2]@ == cs[2]);
        }
        match parse_i32(cols[1].as_slice()) {
            None => Err(String::from_str("id")),
            Some(id) => Ok(Mut::AddClass { id, class: string_of(cols[2].as_slice()) }),
        }
    } else if eq_str(head, "-class") && n >= 2 {
        proof {
            assert(cols@[1]@ == cs[1]);
        }
        match parse_i32(cols[1].as_slice()) {
            None => Err(String::from_str("id")),
            Some(id) => Ok(Mut::RemoveClass { id }),
        }
    } else if eq_str(head, "+attr") && n >= 3 {
        proof {
            assert(cols@[1]@ == cs[1]);
            assert(cols@[2]@ == cs[2]);
        }
        let (name, value) = split_once_exec(cols[2].as_slice(), '=');
        match parse_i32(cols[1].as_slice()) {
            None => Err(String::from_str("id")),
            Some(id) => Ok(
                Mut::SetAttr {
                    id,
                    name: string_of(name.as_slice()),
                    value: string_of(value.as_slice()),
                },
            ),
        }
    } else if eq_str(head, "-attr") && n >= 3 {
        proof {
            assert(cols@[1]@ == cs[1]);
            assert(cols@[2]@ == cs[2]);
        }
        match parse_i32(cols[1].as_slice()) {
            None => Err(String::from_str("id")),
            Some(id) => Ok(Mut::RemoveAttr { id, name: string_of(cols[2].as_slice()) }),
        }
    } else if eq_str(head, "+leaf") && n >= 6 {
        proof {
            assert(cols@[1]@ == cs[1]);
            assert(cols@[2]@ == cs[2]);
            assert(cols@[3]@ == cs[3]);
            assert(cols@[4]@ == cs[4]);
            assert(cols@[5]@ == cs[5]);
        }
        let id = match parse_i32(cols[1].as_slice()) {
            None => {
                return Err(String::from_str("id"));
            },
            Some(v) => v,
        };
        let parent = match parse_i32(cols[2].as_slice()) {
            None => {
                return Err(String::from_str("parent"));
            },
            Some(v) => v,
        };
        let at = match parse_i32(cols[3].as_slice()) {
            None => {
                return Err(String::from_str("at"));
            },
            Some(v) => v,
        };
        let classes = if n > 6 {
            proof {
                assert(cols@[6]@ == cs[6]);
            }
            classes_in(cols[6].as_slice())
        } else {
            Vec::new()
        };
        let attrs = if n > 7 {
            proof {
                assert(cols@[7]@ == cs[7]);
            }
            attrs_in(cols[7].as_slice())
        } else {
            Vec::new()
        };
        let m = Mut::AddLeaf {
            id,
            parent,
            at,
            tag: string_of(cols[4].as_slice()),
            dom_id: id_of_cell_exec(cols[5].as_slice()),
            classes,
            attrs,
        };
        proof {
            if n <= 6 {
                assert(strings_view(classes@) =~= Seq::<Seq<char>>::empty());
            }
            if n <= 7 {
                assert(attrs_view(attrs@) =~= Seq::<(Seq<char>, Seq<char>)>::empty());
            }
        }
        Ok(m)
    } else if eq_str(head, "-leaf") && n >= 2 {
        proof {
            assert(cols@[1]@ == cs[1]);
        }
        match parse_i32(cols[1].as_slice()) {
            None => Err(String::from_str("id")),
            Some(id) => Ok(Mut::RemoveLeaf { id }),
        }
    } else {
        Err(concat_error("bad mut line: ", line))
    }
}

impl Fixture {
    /// Reads a fixture text: the `# name=` comment, the base and generated sheets, one
    /// node per tree line and one mutation per non-empty mutation line. Lines that start
    /// with `# ` are comments. The configuration is `Config::tiny()` with the name and
    /// the node count.
    pub fn parse(text: &str) -> (r: Result<Fixture, String>)
        ensures
            match r {
                Ok(f) => {
                    &&& parse_spec(text@) matches Ok(st)
                    &&& parsed_config(f.config, st.name, st.nodes.len() as int)
                    &&& f.base_css@ == st.base
                    &&& f.css@ == st.css
                    &&& nodes_view(f.nodes@) == st.nodes
                    &&& muts_view(f.mutations@) == st.muts
                },
                Err(e) => parse_spec(text@) == Err::<ParseState, Seq<char>>(e@),
            },
    {
        let chars = chars_of(text);
        let ls = lines(chars.as_slice());
        let ghost lv = lines_of(text@);
        let mut section = Section::Outside;
        let mut name = String::from_str("parsed");
        let mut base = String::new();
        let mut css = String::new();
        let mut nodes: Vec<Node> = Vec::new();
        let mut mutations: Vec<Mut> = Vec::new();
        let mut i: usize = 0;
        proof {
            assert(lv.take(0) =~= Seq::<Seq<char>>::empty());
            assert(nodes_view(nodes@) =~= Seq::<NodeModel>::empty());
            assert(muts_view(mutations@) =~= Seq::<MutModel>::empty());
            assert(base@ == Seq::<char>::empty());
        }
        while i < ls.len()
            invariant
                i <= ls@.len(),
                lv == lines_of(text@),
                ls@.len() == lv.len(),
                forall|k: int| 0 <= k < ls@.len() ==> #[trigger] ls@[k]@ == lv[k],
                parse_lines(lv.take(i as int)) == Ok::<ParseState, Seq<char>>(
                    ParseState {
                        section,
                        name: name@,
                        base: base@,
                        css: css@,
                        nodes: nodes_view(nodes@),
                        muts: muts_view(mutations@),
                    },
                ),
            decreases ls@.len() - i,
        {
            let line = ls[i].as_slice();
            let ghost st = ParseState {
                section,
                name: name@,
                base: base@,
                css: css@,
                nodes: nodes_view(nodes@),
                muts: muts_view(mutations@),
            };
            proof {
                assert(lv.take(i + 1).drop_last() == lv.take(i as int));
                assert(lv.take(i + 1).last() == line@);
                reveal_strlit("# ");
                reveal_strlit("name=");
            }
            if starts_with(line, "# ") {
                let rest = tail(line, 2);
                if starts_with(rest.as_slice(), "name=") {
                    let after = tail(rest.as_slice(), 5);
                    name = name_exec(after.as_slice());
                }
            } else if eq_str(line, "---base---") {
                section = Section::Base;
            } else if eq_str(line, "---css---") {
                section = Section::Css;
            } else if eq_str(line, "---tree---") {
                section = Section::Tree;
            } else if eq_str(line, "---mut---") {
                section = Section::Muts;
            } else {
                match section {
                    Section::Base => {
                        let ghost b0 = base@;
                        let s = string_of(line);
                        push_str(&mut base, s.as_str());
                        push_char(&mut base, '\n');
                        proof {
                            assert(base@ =~= b0 + line@.push('\n'));
                        }
                    },
                    Section::Css => {
                        let ghost c0 = css@;
                        let s = string_of(line);
                        push_str(&mut css, s.as_str());
                        push_char(&mut css, '\n');
                        proof {
                            assert(css@ =~= c0 + line@.push('\n'));
                        }
                    },
                    Section::Tree => {
                        match parse_tree_line(line) {
                            Ok(n) => {
                                nodes.push(n);
                                proof {
                                    assert(nodes_view(nodes@) =~= st.nodes.push(n@));
                                }
                            },
                            Err(e) => {
                                proof {
                                    lemma_parse_err_sticks(lv, i + 1, e@);
                                }
                                return Err(e);
                            },
                        }
                    },
                    Section::Muts => {
                        if line.len() > 0 {
                            match mut_in(line) {
                                Ok(m) => {
                                    mutations.push(m);
                                    proof {
                                        assert(muts_view(mutations@) =~= st.muts.push(m@));
                                    }
                                },
                                Err(e) => {
                                    proof {
                                        lemma_parse_err_sticks(lv, i + 1, e@);
                                    }
                                    return Err(e);
                                },
                            }
                        }
                    },
                    Section::Outside => {},
                }
            }
            i = i + 1;
        }
        proof {
            assert(lv.take(ls@.len() as int) == lv);
        }
        if nodes.len() == 0 {
            return Err(String::from_str("no tree"));
        }
        let mut config = Config::tiny();
        config.name = name;
        config.element_count = #[verifier::truncate] (nodes.len() as i32);
        Ok(Fixture { config, base_css: base, css, nodes, mutations })
    }
}

} // verus!
