//! What the writer emits, the reader reads back: the two runners see the same workload.
use vstd::prelude::*;
use crate::model::{MutModel, NodeModel};
use crate::text::{
    all_digits, decimal, digits, find_char, first_word, has_prefix, is_digit, is_white_space,
    join_with, lemma_decimal_roundtrip, lemma_digits_roundtrip, lemma_lines_unlines,
    lemma_split_join, lemma_unlines_concat, leading_space, leading_word, lines_of, parse_i32_spec,
    plain_line, plain_text, split_on, split_once_or_all, unlines,
};
use crate::format::{
    attr_text, attr_texts, attrs_cell, classes_cell, fixture_text, id_cell, mut_cells, mut_line,
    mut_lines, name_line, tree_cells, tree_line, tree_lines, with_final_newline,
};
use crate::parse::{
    attrs_of_cell, classes_of_cell, id_of_cell, lemma_find_char_at, lemma_leading_space,
    lemma_leading_word, mut_line_spec, name_of, parse_lines, parse_spec, parse_step, tree_line_spec,
    initial_state, ParseState, Section,
};

verus! {

/// A line of a sheet section: neither a comment nor a section marker.
pub open spec fn body_line(l: Seq<char>) -> bool {
    &&& !has_prefix(l, "# "@)
    &&& l != "---base---"@
    &&& l != "---css---"@
    &&& l != "---tree---"@
    &&& l != "---mut---"@
}

/// A sheet, as written (with its final line break), that reads back unchanged.
pub open spec fn sheet_safe(s: Seq<char>) -> bool {
    &&& plain_text(s)
    &&& forall|i: int| 0 <= i < lines_of(s).len() ==> body_line(#[trigger] lines_of(s)[i])
}

/// Text that can stand in one cell of a line: no tab or line break.
pub open spec fn cell_safe(s: Seq<char>) -> bool {
    &&& !s.contains('\t')
    &&& !s.contains('\n')
}

/// Text that does not end in a carriage return, which the line split would drop when
/// it ends a line.
pub open spec fn no_cr_end(s: Seq<char>) -> bool {
    !(s.len() > 0 && s.last() == '\r')
}

/// An attributes cell that does not end in a carriage return: none, or a last value
/// that does not.
pub open spec fn attrs_end_safe(attrs: Seq<(Seq<char>, Seq<char>)>) -> bool {
    attrs.len() == 0 || no_cr_end(attrs.last().1)
}

/// Text that can stand in a comma-separated list within a cell.
pub open spec fn item_safe(s: Seq<char>) -> bool {
    cell_safe(s) && !s.contains(',')
}

/// An id that reads back: any cell text but `-`, which stands for no id.
pub open spec fn id_safe(d: Option<Seq<char>>) -> bool {
    match d {
        Some(s) => cell_safe(s) && s != seq!['-'],
        None => true,
    }
}

/// Classes that read back: no commas, and not one empty class, which reads as none.
pub open spec fn classes_safe(cs: Seq<Seq<char>>) -> bool {
    &&& forall|i: int| 0 <= i < cs.len() ==> item_safe(#[trigger] cs[i])
    &&& !(cs.len() == 1 && cs[0].len() == 0)
}

/// Attributes that read back: names without `=`, and no commas.
pub open spec fn attrs_safe(attrs: Seq<(Seq<char>, Seq<char>)>) -> bool {
    forall|i: int|
        0 <= i < attrs.len() ==> {
            let a = #[trigger] attrs[i];
            item_safe(a.0) && !a.0.contains('=') && item_safe(a.1)
        }
}

/// Whether `x` is an `i32`.
pub open spec fn is_i32(x: int) -> bool {
    i32::MIN <= x <= i32::MAX
}

/// A node whose tree line reads back as the node: its cells hold no tab or line break,
/// and its attributes cell, the last of the line, does not end in a carriage return.
pub open spec fn node_safe(n: NodeModel) -> bool {
    &&& is_i32(n.parent)
    &&& cell_safe(n.tag)
    &&& id_safe(n.dom_id)
    &&& classes_safe(n.classes)
    &&& attrs_safe(n.attrs)
    &&& attrs_end_safe(n.attrs)
}

/// A mutation whose line, once split from the text, reads back as the mutation: its
/// cells hold no tab or line break, and a set attribute's name no `=`.
pub open spec fn mut_cells_safe(m: MutModel) -> bool {
    match m {
        MutModel::AddClass { id, class } => is_i32(id) && cell_safe(class),
        MutModel::RemoveClass { id } => is_i32(id),
        MutModel::SetAttr { id, name, value } => is_i32(id) && cell_safe(name) && !name.contains(
            '=',
        ) && cell_safe(value),
        MutModel::RemoveAttr { id, name } => is_i32(id) && cell_safe(name),
        MutModel::AddLeaf { id, parent, at, tag, dom_id, classes, attrs } => {
            &&& is_i32(id) && is_i32(parent) && is_i32(at)
            &&& cell_safe(tag)
            &&& id_safe(dom_id)
            &&& classes_safe(classes)
            &&& attrs_safe(attrs)
        },
        MutModel::RemoveLeaf { id } => is_i32(id),
        MutModel::Restyle => true,
    }
}

/// The last cell of the mutation's line does not end in a carriage return, which the
/// split of a text into lines would drop.
pub open spec fn mut_end_safe(m: MutModel) -> bool {
    match m {
        MutModel::AddClass { class, .. } => no_cr_end(class),
        MutModel::SetAttr { value, .. } => no_cr_end(value),
        MutModel::RemoveAttr { name, .. } => no_cr_end(name),
        MutModel::AddLeaf { attrs, .. } => attrs_end_safe(attrs),
        _ => true,
    }
}

/// A mutation whose line, within a written fixture, reads back as the mutation.
pub open spec fn mut_safe(m: MutModel) -> bool {
    mut_cells_safe(m) && mut_end_safe(m)
}

/// A name that the `# name=` comment carries back: one word.
pub open spec fn name_safe(name: Seq<char>) -> bool {
    &&& name.len() > 0
    &&& forall|i: int| 0 <= i < name.len() ==> !is_white_space(#[trigger] name[i])
}

/// Reads more lines after a result.
pub open spec fn parse_from(r: Result<ParseState, Seq<char>>, ls: Seq<Seq<char>>) -> Result<
    ParseState,
    Seq<char>,
>
    decreases ls.len(),
{
    if ls.len() == 0 {
        r
    } else {
        match parse_from(r, ls.drop_last()) {
            Ok(st) => parse_step(st, ls.last()),
            Err(e) => Err(e),
        }
    }
}

proof fn lemma_parse_concat(a: Seq<Seq<char>>, b: Seq<Seq<char>>)
    ensures
        parse_lines(a + b) == parse_from(parse_lines(a), b),
    decreases b.len(),
{
    if b.len() == 0 {
        assert(a + b == a);
    } else {
        assert((a + b).drop_last() == a + b.drop_last());
        assert((a + b).last() == b.last());
        lemma_parse_concat(a, b.drop_last());
    }
}

proof fn lemma_decimal_chars(n: int)
    ensures
        decimal(n).len() >= 1,
        forall|i: int|
            0 <= i < decimal(n).len() ==> is_digit(#[trigger] decimal(n)[i]) || (i == 0 && n < 0
                && decimal(n)[i] == '-'),
{
    if n < 0 {
        let m = (-n) as nat;
        lemma_digits_roundtrip(m);
        assert forall|i: int| 0 <= i < decimal(n).len() implies is_digit(#[trigger] decimal(n)[i])
            || (i == 0 && n < 0 && decimal(n)[i] == '-') by {
            if i > 0 {
                assert(decimal(n)[i] == digits(m)[i - 1]);
            }
        }
    } else {
        lemma_digits_roundtrip(n as nat);
    }
}

proof fn lemma_decimal_cell(n: int)
    ensures
        cell_safe(decimal(n)),
        !decimal(n).contains(','),
        !decimal(n).contains('='),
{
    lemma_decimal_chars(n);
}

proof fn lemma_join_no_char(ps: Seq<Seq<char>>, sep: char, c: char)
    requires
        c != sep,
        forall|i: int| 0 <= i < ps.len() ==> !(#[trigger] ps[i]).contains(c),
    ensures
        !join_with(ps, sep).contains(c),
    decreases ps.len(),
{
    if ps.len() == 1 {
        assert(!ps[0].contains(c));
    } else if ps.len() > 1 {
        let init = ps.drop_last();
        assert forall|i: int| 0 <= i < init.len() implies !(#[trigger] init[i]).contains(c) by {
            assert(init[i] == ps[i]);
        }
        lemma_join_no_char(init, sep, c);
        assert(!ps[ps.len() - 1].contains(c));
        let j = join_with(init, sep).push(sep) + ps.last();
        if j.contains(c) {
            let k = choose|k: int| 0 <= k < j.len() && j[k] == c;
            if k < join_with(init, sep).len() {
                assert(join_with(init, sep)[k] == c);
            } else if k > join_with(init, sep).len() {
                assert(ps.last()[k - join_with(init, sep).len() - 1] == c);
            }
        }
    }
}

proof fn lemma_join_first(ps: Seq<Seq<char>>, sep: char)
    requires
        ps.len() >= 1,
    ensures
        join_with(ps, sep).len() >= ps[0].len(),
        forall|j: int| 0 <= j < ps[0].len() ==> #[trigger] join_with(ps, sep)[j] == ps[0][j],
    decreases ps.len(),
{
    if ps.len() > 1 {
        lemma_join_first(ps.drop_last(), sep);
    }
}

proof fn lemma_join_nonempty(ps: Seq<Seq<char>>, sep: char)
    requires
        ps.len() >= 2 || (ps.len() == 1 && ps[0].len() > 0),
    ensures
        join_with(ps, sep).len() > 0,
{
}

proof fn lemma_split_once_pair(x: Seq<char>, y: Seq<char>, c: char)
    requires
        !x.contains(c),
    ensures
        split_once_or_all(x.push(c) + y, c) == (x, y),
{
    let s = x.push(c) + y;
    assert forall|j: int| 0 <= j < x.len() implies s[j] != c by {
        assert(s[j] == x[j]);
    }
    lemma_find_char_at(s, c, x.len() as int);
    assert(s.take(x.len() as int) =~= x);
    assert(s.skip(x.len() as int + 1) =~= y);
}

proof fn lemma_classes_roundtrip(cs: Seq<Seq<char>>)
    requires
        classes_safe(cs),
    ensures
        classes_of_cell(classes_cell(cs)) == cs,
        cell_safe(classes_cell(cs)),
{
    assert forall|i: int| 0 <= i < cs.len() implies !(#[trigger] cs[i]).contains('\t') && !cs[
        i].contains('\n') && !cs[i].contains(',') by {
        assert(item_safe(cs[i]));
    }
    lemma_join_no_char(cs, ',', '\t');
    lemma_join_no_char(cs, ',', '\n');
    if cs.len() == 0 {
        assert(classes_cell(cs) == Seq::<char>::empty());
        assert(classes_of_cell(classes_cell(cs)) =~= cs);
    } else {
        lemma_join_nonempty(cs, ',');
        lemma_split_join(cs, ',');
    }
}

proof fn lemma_attrs_roundtrip(attrs: Seq<(Seq<char>, Seq<char>)>)
    requires
        attrs_safe(attrs),
    ensures
        attrs_of_cell(attrs_cell(attrs)) == attrs,
        cell_safe(attrs_cell(attrs)),
{
    let ts = attr_texts(attrs);
    assert forall|i: int| 0 <= i < ts.len() implies !(#[trigger] ts[i]).contains('\t') && !ts[
        i].contains('\n') && !ts[i].contains(',') by {
        let a = attrs[i];
        assert(item_safe(a.0) && !a.0.contains('=') && item_safe(a.1));
        let t = ts[i];
        assert(t == a.0.push('=') + a.1);
        assert forall|c: char| c != '=' && t.contains(c) implies a.0.contains(c) || a.1.contains(
            c,
        ) by {
            let k = choose|k: int| 0 <= k < t.len() && t[k] == c;
            if k < a.0.len() {
                assert(a.0[k] == c);
            } else if k > a.0.len() {
                assert(a.1[k - a.0.len() - 1] == c);
            }
        }
    }
    lemma_join_no_char(ts, ',', '\t');
    lemma_join_no_char(ts, ',', '\n');
    if attrs.len() == 0 {
        assert(attrs_cell(attrs) == Seq::<char>::empty());
        assert(attrs_of_cell(attrs_cell(attrs)) =~= attrs);
    } else {
        assert(ts[0].len() > 0);
        lemma_join_nonempty(ts, ',');
        lemma_split_join(ts, ',');
        let ps = split_on(attrs_cell(attrs), ',');
        assert(ps == ts);
        assert forall|i: int| 0 <= i < attrs.len() implies split_once_or_all(
            #[trigger] ps[i],
            '=',
        ) == attrs[i] by {
            let a = attrs[i];
            assert(ps[i] == a.0.push('=') + a.1);
            lemma_split_once_pair(a.0, a.1, '=');
        }
        assert(attrs_of_cell(attrs_cell(attrs)) =~= attrs);
    }
}

proof fn lemma_id_roundtrip(d: Option<Seq<char>>)
    requires
        id_safe(d),
    ensures
        id_of_cell(id_cell(d)) == d,
        cell_safe(id_cell(d)),
{
    if d is None {
        assert(!seq!['-'].contains('\t'));
        assert(!seq!['-'].contains('\n'));
        assert(!seq!['-'].contains('\r'));
    }
}

/// Characters of a joined line that are neither separators nor in any piece.
proof fn lemma_line_plain(ps: Seq<Seq<char>>)
    requires
        ps.len() >= 1,
        forall|i: int| 0 <= i < ps.len() ==> !(#[trigger] ps[i]).contains('\n'),
        no_cr_end(ps.last()),
    ensures
        plain_line(join_with(ps, '\t')),
{
    lemma_join_no_char(ps, '\t', '\n');
    lemma_join_end(ps, '\t');
}

/// A joined text ends as its last piece does, or in the separator.
proof fn lemma_join_end(ps: Seq<Seq<char>>, sep: char)
    requires
        sep != '\r',
        ps.len() == 0 || no_cr_end(ps.last()),
    ensures
        no_cr_end(join_with(ps, sep)),
{
    if ps.len() > 1 {
        let a = join_with(ps.drop_last(), sep).push(sep);
        let l = a + ps.last();
        if ps.last().len() > 0 {
            assert(l.last() == ps.last().last());
        } else {
            assert(l =~= a);
        }
    }
}

/// A line whose first character is a digit, `+`, or `-` followed by a lower-case letter is
/// neither a comment nor a marker.
proof fn lemma_body_by_start(l: Seq<char>)
    requires
        l.len() >= 2,
        is_digit(l[0]) || l[0] == '+' || l[0] == 'r' || (l[0] == '-' && 'a' <= l[1] <= 'z'),
    ensures
        body_line(l),
{
    reveal_strlit("# ");
    reveal_strlit("---base---");
    reveal_strlit("---css---");
    reveal_strlit("---tree---");
    reveal_strlit("---mut---");
    assert(l.take(2)[0] == l[0]);
    if l == "---base---"@ {
        assert(l[1] == '-');
    }
    if l == "---css---"@ {
        assert(l[1] == '-');
    }
    if l == "---tree---"@ {
        assert(l[1] == '-');
    }
    if l == "---mut---"@ {
        assert(l[1] == '-');
    }
}

/// The tree line of a node reads back as the node.
pub proof fn lemma_tree_line_roundtrip(i: nat, n: NodeModel)
    requires
        node_safe(n),
    ensures
        tree_line_spec(tree_line(i as int, n)) == Ok::<NodeModel, Seq<char>>(n),
        plain_line(tree_line(i as int, n)),
        body_line(tree_line(i as int, n)),
{
    let cells = tree_cells(i as int, n);
    lemma_decimal_cell(i as int);
    lemma_decimal_cell(n.parent);
    lemma_id_roundtrip(n.dom_id);
    lemma_classes_roundtrip(n.classes);
    lemma_attrs_roundtrip(n.attrs);
    assert forall|k: int| 0 <= k < cells.len() implies cell_safe(#[trigger] cells[k]) by {
        if k == 0 {
            assert(cells[k] == decimal(i as int));
        }
    }
    lemma_split_join(cells, '\t');
    lemma_decimal_roundtrip(n.parent as i32);
    lemma_line_plain(cells);
    let l = tree_line(i as int, n);
    lemma_join_first(cells, '\t');
    lemma_decimal_chars(i as int);
    lemma_decimal_chars(n.parent);
    assert(is_digit(l[0]));
    assert(l.len() >= 2) by {
        assert(join_with(cells, '\t') == join_with(cells.drop_last(), '\t').push('\t') + cells.last());
        lemma_join_first(cells.drop_last(), '\t');
        assert(cells.drop_last()[0] == cells[0]);
    }
    lemma_body_by_start(l);
}

proof fn lemma_literal_cell(l: Seq<char>)
    requires
        forall|i: int| 0 <= i < l.len() ==> 'a' <= #[trigger] l[i] <= 'z' || l[i] == '+' || l[i]
            == '-',
    ensures
        cell_safe(l),
{
}

proof fn lemma_literals()
    ensures
        "+class"@ =~= seq!['+', 'c', 'l', 'a', 's', 's'],
        "-class"@ =~= seq!['-', 'c', 'l', 'a', 's', 's'],
        "+attr"@ =~= seq!['+', 'a', 't', 't', 'r'],
        "-attr"@ =~= seq!['-', 'a', 't', 't', 'r'],
        "+leaf"@ =~= seq!['+', 'l', 'e', 'a', 'f'],
        "-leaf"@ =~= seq!['-', 'l', 'e', 'a', 'f'],
        "restyle"@ =~= seq!['r', 'e', 's', 't', 'y', 'l', 'e'],
{
    reveal_strlit("+class");
    reveal_strlit("-class");
    reveal_strlit("+attr");
    reveal_strlit("-attr");
    reveal_strlit("+leaf");
    reveal_strlit("-leaf");
    reveal_strlit("restyle");
}

/// What every mutation line shares: its cells, plain, non-empty, and not a comment or marker.
proof fn lemma_mut_common(m: MutModel)
    requires
        mut_cells_safe(m),
    ensures
        split_on(mut_line(m), '\t') == mut_cells(m),
        mut_end_safe(m) ==> plain_line(mut_line(m)),
        body_line(mut_line(m)),
        mut_line(m).len() > 0,
{
    lemma_literals();
    let cells = mut_cells(m);
    lemma_literal_cell(cells[0]);
    match m {
        MutModel::AddClass { id, class } => {
            lemma_decimal_cell(id);
        },
        MutModel::RemoveClass { id } => {
            lemma_decimal_cell(id);
        },
        MutModel::SetAttr { id, name, value } => {
            lemma_decimal_cell(id);
            let t = name.push('=') + value;
            assert forall|c: char| c != '=' && t.contains(c) implies name.contains(c)
                || value.contains(c) by {
                let k = choose|k: int| 0 <= k < t.len() && t[k] == c;
                if k < name.len() {
                    assert(name[k] == c);
                } else if k > name.len() {
                    assert(value[k - name.len() - 1] == c);
                }
            }
            assert(cells[2] == t);
        },
        MutModel::RemoveAttr { id, name } => {
            lemma_decimal_cell(id);
        },
        MutModel::AddLeaf { id, parent, at, tag, dom_id, classes, attrs } => {
            lemma_decimal_cell(id);
            lemma_decimal_cell(parent);
            lemma_decimal_cell(at);
            lemma_id_roundtrip(dom_id);
            lemma_classes_roundtrip(classes);
            lemma_attrs_roundtrip(attrs);
        },
        MutModel::RemoveLeaf { id } => {
            lemma_decimal_cell(id);
        },
        MutModel::Restyle => {},
    }
    assert forall|k: int| 0 <= k < cells.len() implies cell_safe(#[trigger] cells[k]) by {
        if k == 0 {
            lemma_literal_cell(cells[0]);
        }
    }
    lemma_split_join(cells, '\t');
    if mut_end_safe(m) {
        lemma_line_plain(cells);
    }
    let l = mut_line(m);
    lemma_join_first(cells, '\t');
    assert(cells[0].len() >= 5);
    assert(l.len() >= 5);
    assert(l[0] == cells[0][0]);
    assert(l[1] == cells[0][1]);
    lemma_body_by_start(l);
}

/// The line of a mutation reads back as the mutation, a carriage return ending its last
/// cell included; without one it is a plain line.
pub proof fn lemma_mut_line_roundtrip(m: MutModel)
    requires
        mut_cells_safe(m),
    ensures
        mut_line_spec(mut_line(m)) == Ok::<MutModel, Seq<char>>(m),
        mut_end_safe(m) ==> plain_line(mut_line(m)),
        body_line(mut_line(m)),
        mut_line(m).len() > 0,
{
    lemma_mut_common(m);
    lemma_literals();
    let l = mut_line(m);
    let cells = mut_cells(m);
    if !(m is Restyle) {
        assert(l != "restyle"@) by {
            if l == "restyle"@ {
                assert(l[0] == 'r');
                assert(l[0] == cells[0][0]);
            }
        }
    }
    match m {
        MutModel::AddClass { id, class } => {
            lemma_decimal_roundtrip(id as i32);
        },
        MutModel::RemoveClass { id } => {
            lemma_decimal_roundtrip(id as i32);
        },
        MutModel::SetAttr { id, name, value } => {
            lemma_decimal_roundtrip(id as i32);
            lemma_split_once_pair(name, value, '=');
        },
        MutModel::RemoveAttr { id, name } => {
            lemma_decimal_roundtrip(id as i32);
        },
        MutModel::AddLeaf { id, parent, at, tag, dom_id, classes, attrs } => {
            lemma_decimal_roundtrip(id as i32);
            lemma_decimal_roundtrip(parent as i32);
            lemma_decimal_roundtrip(at as i32);
            lemma_id_roundtrip(dom_id);
            lemma_classes_roundtrip(classes);
            lemma_attrs_roundtrip(attrs);
        },
        MutModel::RemoveLeaf { id } => {
            lemma_decimal_roundtrip(id as i32);
        },
        MutModel::Restyle => {
            assert(cells =~= seq!["restyle"@]);
            lemma_join_first(cells, '\t');
            assert(l == "restyle"@);
        },
    }
}

proof fn lemma_sheet_lines(st: ParseState, ls: Seq<Seq<char>>)
    requires
        st.section is Base || st.section is Css,
        forall|i: int| 0 <= i < ls.len() ==> body_line(#[trigger] ls[i]),
    ensures
        parse_from(Ok::<ParseState, Seq<char>>(st), ls) == Ok::<ParseState, Seq<char>>(
            if st.section is Base {
                ParseState { base: st.base + unlines(ls), ..st }
            } else {
                ParseState { css: st.css + unlines(ls), ..st }
            },
        ),
    decreases ls.len(),
{
    if ls.len() == 0 {
        assert(st.base + unlines(ls) =~= st.base);
        assert(st.css + unlines(ls) =~= st.css);
    } else {
        let init = ls.drop_last();
        assert forall|i: int| 0 <= i < init.len() implies body_line(#[trigger] init[i]) by {
            assert(init[i] == ls[i]);
        }
        lemma_sheet_lines(st, init);
        assert(body_line(ls[ls.len() - 1]));
        let l = ls.last();
        assert(st.base + unlines(init) + l.push('\n') =~= st.base + unlines(ls));
        assert(st.css + unlines(init) + l.push('\n') =~= st.css + unlines(ls));
    }
}

proof fn lemma_tree_lines(st: ParseState, nodes: Seq<NodeModel>)
    requires
        st.section is Tree,
        forall|i: int| 0 <= i < nodes.len() ==> node_safe(#[trigger] nodes[i]),
    ensures
        parse_from(Ok::<ParseState, Seq<char>>(st), tree_lines(nodes)) == Ok::<
            ParseState,
            Seq<char>,
        >(ParseState { nodes: st.nodes + nodes, ..st }),
    decreases nodes.len(),
{
    if nodes.len() == 0 {
        assert(st.nodes + nodes =~= st.nodes);
        assert(tree_lines(nodes).len() == 0);
    } else {
        let init = nodes.drop_last();
        assert forall|i: int| 0 <= i < init.len() implies node_safe(#[trigger] init[i]) by {
            assert(init[i] == nodes[i]);
        }
        lemma_tree_lines(st, init);
        assert(tree_lines(nodes).drop_last() =~= tree_lines(init));
        let k = nodes.len() - 1;
        assert(node_safe(nodes[k]));
        lemma_tree_line_roundtrip(k as nat, nodes[k]);
        assert(tree_lines(nodes).last() == tree_line(k, nodes[k]));
        assert(st.nodes + init.push(nodes[k]) =~= st.nodes + nodes);
        assert((st.nodes + init).push(nodes[k]) =~= st.nodes + nodes);
    }
}

proof fn lemma_mut_lines(st: ParseState, muts: Seq<MutModel>)
    requires
        st.section is Muts,
        forall|i: int| 0 <= i < muts.len() ==> mut_safe(#[trigger] muts[i]),
    ensures
        parse_from(Ok::<ParseState, Seq<char>>(st), mut_lines(muts)) == Ok::<ParseState, Seq<char>>(
            ParseState { muts: st.muts + muts, ..st },
        ),
    decreases muts.len(),
{
    if muts.len() == 0 {
        assert(st.muts + muts =~= st.muts);
        assert(mut_lines(muts).len() == 0);
    } else {
        let init = muts.drop_last();
        assert forall|i: int| 0 <= i < init.len() implies mut_safe(#[trigger] init[i]) by {
            assert(init[i] == muts[i]);
        }
        lemma_mut_lines(st, init);
        assert(mut_lines(muts).drop_last() =~= mut_lines(init));
        let k = muts.len() - 1;
        assert(mut_safe(muts[k]));
        lemma_mut_line_roundtrip(muts[k]);
        assert(mut_lines(muts).last() == mut_line(muts[k]));
        assert((st.muts + init).push(muts[k]) =~= st.muts + muts);
    }
}

proof fn lemma_first_word(name: Seq<char>, rest: Seq<char>)
    requires
        name_safe(name),
    ensures
        first_word(name.push(' ') + rest) == Some(name),
{
    let s = name.push(' ') + rest;
    assert(s[0] == name[0]);
    lemma_leading_space(s, 0);
    assert(s.skip(0) =~= s);
    assert forall|j: int| 0 <= j < name.len() implies !is_white_space(s[j]) by {
        assert(s[j] == name[j]);
    }
    assert(s[name.len() as int] == ' ');
    lemma_leading_word(s, name.len() as int);
    assert(s.take(name.len() as int) =~= name);
}

proof fn lemma_marker_line(l: Seq<char>)
    requires
        l == "---base---"@ || l == "---css---"@ || l == "---tree---"@ || l == "---mut---"@,
    ensures
        !has_prefix(l, "# "@),
        plain_line(l),
{
    reveal_strlit("# ");
    reveal_strlit("---base---");
    reveal_strlit("---css---");
    reveal_strlit("---tree---");
    reveal_strlit("---mut---");
    assert(l.take(2)[0] == l[0]);
    assert(l[0] == '-');
    assert(l.last() == '-');
    assert(!l.contains('\n'));
}

/// The header lines: the format comment, the name comment and the base marker.
proof fn lemma_head(name: Seq<char>, count: nat, rules: int)
    requires
        name_safe(name),
    ensures
        parse_lines(
            seq!["# stylebench-fixture 1"@, name_line(name, count as int, rules), "---base---"@],
        ) == Ok::<ParseState, Seq<char>>(
            ParseState {
                section: Section::Base,
                name,
                base: Seq::<char>::empty(),
                css: Seq::<char>::empty(),
                nodes: Seq::<NodeModel>::empty(),
                muts: Seq::<MutModel>::empty(),
            },
        ),
        plain_line("# stylebench-fixture 1"@),
        plain_line(name_line(name, count as int, rules)),
{
    reveal_strlit("# ");
    reveal_strlit("name=");
    reveal_strlit("# name=");
    reveal_strlit("# stylebench-fixture 1");
    reveal_strlit(" elements=");
    reveal_strlit(" rules=");
    reveal_strlit("---base---");
    reveal_strlit("---css---");
    reveal_strlit("---tree---");
    reveal_strlit("---mut---");
    let h = seq!["# stylebench-fixture 1"@, name_line(name, count as int, rules), "---base---"@];
    // the format comment
    let l0 = h[0];
    assert(has_prefix(l0, "# "@)) by {
        assert(l0.take(2) =~= "# "@);
    }
    assert(!has_prefix(l0.skip(2), "name="@)) by {
        assert(l0[2] == 's');
        assert(l0.skip(2).take(5)[0] == l0[2]);
        assert("name="@[0] == 'n');
    }
    assert(!l0.contains('\n'));
    // the name comment
    let tail_part = " elements="@ + decimal(count as int) + " rules="@ + decimal(rules);
    let l1 = h[1];
    assert(l1 =~= "# name="@ + name + tail_part);
    assert(has_prefix(l1, "# "@)) by {
        assert(l1.take(2) =~= "# "@);
    }
    let rest = l1.skip(2);
    assert(rest =~= "name="@ + name + tail_part);
    assert(has_prefix(rest, "name="@)) by {
        assert(rest.take(5) =~= "name="@);
    }
    assert(rest.skip(5) =~= name.push(' ') + tail_part.skip(1));
    lemma_first_word(name, tail_part.skip(1));
    assert(name_of(rest.skip(5)) == name);
    lemma_decimal_chars(count as int);
    lemma_decimal_chars(rules);
    assert(!l1.contains('\n')) by {
        if l1.contains('\n') {
            let k = choose|k: int| 0 <= k < l1.len() && l1[k] == '\n';
            if k >= 7 && k < 7 + name.len() {
                assert(name[k - 7] == '\n');
            }
            let d = decimal(count as int);
            if k >= 17 + name.len() && k < 17 + name.len() + d.len() {
                assert(d[k - 17 - name.len()] == '\n');
            }
            let t = 17 + name.len() + d.len();
            if k >= t + 7 {
                assert(decimal(rules)[k - t - 7] == '\n');
            }
        }
    }
    assert(l1.last() == decimal(rules).last());
    // the base marker
    lemma_marker_line(h[2]);
    let h1 = seq![l0];
    let h2 = seq![l0, l1];
    assert(h.drop_last() =~= h2);
    assert(h2.drop_last() =~= h1);
    assert(h1.drop_last() =~= Seq::<Seq<char>>::empty());
    let st0 = initial_state();
    assert(parse_lines(h1.drop_last()) == Ok::<ParseState, Seq<char>>(st0));
    assert(parse_lines(h1) == parse_step(st0, l0));
    assert(parse_step(st0, l0) == Ok::<ParseState, Seq<char>>(st0));
    let st1 = ParseState { name, ..st0 };
    assert(parse_step(st0, l1) == Ok::<ParseState, Seq<char>>(st1));
    assert(parse_lines(h2) == Ok::<ParseState, Seq<char>>(st1));
    assert(parse_step(st1, h[2]) == Ok::<ParseState, Seq<char>>(
        ParseState { section: Section::Base, ..st1 },
    ));
}

/// The lines of a fixture text.
pub open spec fn fixture_lines(
    name: Seq<char>,
    rules: int,
    base: Seq<char>,
    css: Seq<char>,
    nodes: Seq<NodeModel>,
    muts: Seq<MutModel>,
) -> Seq<Seq<char>> {
    seq!["# stylebench-fixture 1"@, name_line(name, nodes.len() as int, rules), "---base---"@]
        + lines_of(with_final_newline(base)) + seq!["---css---"@] + lines_of(
        with_final_newline(css),
    ) + seq!["---tree---"@] + tree_lines(nodes) + seq!["---mut---"@] + mut_lines(muts)
}

/// The safety conditions of the round trip.
pub open spec fn fixture_safe(
    name: Seq<char>,
    base: Seq<char>,
    css: Seq<char>,
    nodes: Seq<NodeModel>,
    muts: Seq<MutModel>,
) -> bool {
    &&& name_safe(name)
    &&& sheet_safe(with_final_newline(base))
    &&& sheet_safe(with_final_newline(css))
    &&& forall|i: int| 0 <= i < nodes.len() ==> node_safe(#[trigger] nodes[i])
    &&& forall|i: int| 0 <= i < muts.len() ==> mut_safe(#[trigger] muts[i])
}

proof fn lemma_text_is_lines(
    name: Seq<char>,
    rules: int,
    base: Seq<char>,
    css: Seq<char>,
    nodes: Seq<NodeModel>,
    muts: Seq<MutModel>,
)
    requires
        fixture_safe(name, base, css, nodes, muts),
    ensures
        fixture_text(name, rules, base, css, nodes, muts) == unlines(
            fixture_lines(name, rules, base, css, nodes, muts),
        ),
{
    let l1 = seq!["# stylebench-fixture 1"@, name_line(name, nodes.len() as int, rules), "---base---"@];
    let l2 = lines_of(with_final_newline(base));
    let l3 = seq!["---css---"@];
    let l4 = lines_of(with_final_newline(css));
    let l5 = seq!["---tree---"@];
    let l6 = tree_lines(nodes);
    let l7 = seq!["---mut---"@];
    let l8 = mut_lines(muts);
    lemma_unlines_concat(l1, l2);
    lemma_unlines_concat(l1 + l2, l3);
    lemma_unlines_concat(l1 + l2 + l3, l4);
    lemma_unlines_concat(l1 + l2 + l3 + l4, l5);
    lemma_unlines_concat(l1 + l2 + l3 + l4 + l5, l6);
    lemma_unlines_concat(l1 + l2 + l3 + l4 + l5 + l6, l7);
    lemma_unlines_concat(l1 + l2 + l3 + l4 + l5 + l6 + l7, l8);
    assert(fixture_text(name, rules, base, css, nodes, muts) =~= unlines(
        l1 + l2 + l3 + l4 + l5 + l6 + l7 + l8,
    ));
}

proof fn lemma_lines_plain(
    name: Seq<char>,
    rules: int,
    base: Seq<char>,
    css: Seq<char>,
    nodes: Seq<NodeModel>,
    muts: Seq<MutModel>,
)
    requires
        fixture_safe(name, base, css, nodes, muts),
    ensures
        forall|i: int|
            0 <= i < fixture_lines(name, rules, base, css, nodes, muts).len() ==> plain_line(
                #[trigger] fixture_lines(name, rules, base, css, nodes, muts)[i],
            ),
{
    let l1 = seq!["# stylebench-fixture 1"@, name_line(name, nodes.len() as int, rules), "---base---"@];
    let l2 = lines_of(with_final_newline(base));
    let l4 = lines_of(with_final_newline(css));
    let l6 = tree_lines(nodes);
    let l8 = mut_lines(muts);
    let all = fixture_lines(name, rules, base, css, nodes, muts);
    lemma_head(name, nodes.len(), rules);
    lemma_marker_line("---css---"@);
    lemma_marker_line("---tree---"@);
    lemma_marker_line("---mut---"@);
    lemma_marker_line("---base---"@);
    assert forall|i: int| 0 <= i < all.len() implies plain_line(#[trigger] all[i]) by {
        let a = 3int;
        let b = a + l2.len();
        let c = b + 1;
        let d = c + l4.len();
        let e = d + 1;
        let f = e + l6.len();
        let g = f + 1;
        if i < a {
            assert(all[i] == l1[i]);
        } else if i < b {
            assert(all[i] == l2[i - a]);
        } else if i < c {
            assert(all[i] == "---css---"@);
        } else if i < d {
            assert(all[i] == l4[i - c]);
        } else if i < e {
            assert(all[i] == "---tree---"@);
        } else if i < f {
            assert(all[i] == l6[i - e]);
            assert(node_safe(nodes[i - e]));
            lemma_tree_line_roundtrip((i - e) as nat, nodes[i - e]);
        } else if i < g {
            assert(all[i] == "---mut---"@);
        } else {
            assert(all[i] == l8[i - g]);
            assert(mut_safe(muts[i - g]));
            lemma_mut_line_roundtrip(muts[i - g]);
        }
    }
}

proof fn lemma_markers_distinct()
    ensures
        "---css---"@ != "---base---"@,
        "---tree---"@ != "---base---"@,
        "---tree---"@ != "---css---"@,
        "---mut---"@ != "---base---"@,
        "---mut---"@ != "---css---"@,
        "---mut---"@ != "---tree---"@,
{
    reveal_strlit("---base---");
    reveal_strlit("---css---");
    reveal_strlit("---tree---");
    reveal_strlit("---mut---");
    assert("---tree---"@[3] != "---base---"@[3]);
    assert("---mut---"@[3] != "---css---"@[3]);
}

/// Reading a section marker switches to its section.
proof fn lemma_marker_steps(st: ParseState)
    ensures
        parse_step(st, "---css---"@) == Ok::<ParseState, Seq<char>>(
            ParseState { section: Section::Css, ..st },
        ),
        parse_step(st, "---tree---"@) == Ok::<ParseState, Seq<char>>(
            ParseState { section: Section::Tree, ..st },
        ),
        parse_step(st, "---mut---"@) == Ok::<ParseState, Seq<char>>(
            ParseState { section: Section::Muts, ..st },
        ),
{
    lemma_markers_distinct();
    lemma_marker_line("---css---"@);
    lemma_marker_line("---tree---"@);
    lemma_marker_line("---mut---"@);
}

proof fn lemma_parse_one(st: ParseState, l: Seq<char>)
    ensures
        parse_from(Ok::<ParseState, Seq<char>>(st), seq![l]) == parse_step(st, l),
{
    assert(seq![l].drop_last() =~= Seq::<Seq<char>>::empty());
    assert(parse_from(Ok::<ParseState, Seq<char>>(st), seq![l].drop_last()) == Ok::<
        ParseState,
        Seq<char>,
    >(st));
    assert(seq![l].last() == l);
}

proof fn lemma_parse_sections(
    name: Seq<char>,
    rules: int,
    base: Seq<char>,
    css: Seq<char>,
    nodes: Seq<NodeModel>,
    muts: Seq<MutModel>,
)
    requires
        fixture_safe(name, base, css, nodes, muts),
    ensures
        parse_lines(fixture_lines(name, rules, base, css, nodes, muts)) == Ok::<
            ParseState,
            Seq<char>,
        >(
            ParseState {
                section: Section::Muts,
                name,
                base: with_final_newline(base),
                css: with_final_newline(css),
                nodes,
                muts,
            },
        ),
{
    let wb = with_final_newline(base);
    let wc = with_final_newline(css);
    let l1 = seq!["# stylebench-fixture 1"@, name_line(name, nodes.len() as int, rules), "---base---"@];
    let l2 = lines_of(wb);
    let l3 = seq!["---css---"@];
    let l4 = lines_of(wc);
    let l5 = seq!["---tree---"@];
    let l6 = tree_lines(nodes);
    let l7 = seq!["---mut---"@];
    let l8 = mut_lines(muts);
    lemma_head(name, nodes.len(), rules);
    lemma_parse_concat(l1, l2);
    lemma_parse_concat(l1 + l2, l3);
    lemma_parse_concat(l1 + l2 + l3, l4);
    lemma_parse_concat(l1 + l2 + l3 + l4, l5);
    lemma_parse_concat(l1 + l2 + l3 + l4 + l5, l6);
    lemma_parse_concat(l1 + l2 + l3 + l4 + l5 + l6, l7);
    lemma_parse_concat(l1 + l2 + l3 + l4 + l5 + l6 + l7, l8);
    let s1 = ParseState {
        section: Section::Base,
        name,
        base: Seq::<char>::empty(),
        css: Seq::<char>::empty(),
        nodes: Seq::<NodeModel>::empty(),
        muts: Seq::<MutModel>::empty(),
    };
    assert(fixture_lines(name, rules, base, css, nodes, muts) == l1 + l2 + l3 + l4 + l5 + l6 + l7
        + l8);
    assert(parse_lines(l1) == Ok::<ParseState, Seq<char>>(s1));
    lemma_sheet_lines(s1, l2);
    assert(Seq::<char>::empty() + unlines(l2) =~= wb);
    let s2 = ParseState { base: wb, ..s1 };
    assert(parse_lines(l1 + l2) == Ok::<ParseState, Seq<char>>(s2));
    lemma_parse_one(s2, "---css---"@);
    let s3 = ParseState { section: Section::Css, ..s2 };
    lemma_marker_steps(s2);
    assert(parse_lines(l1 + l2 + l3) == Ok::<ParseState, Seq<char>>(s3));
    lemma_sheet_lines(s3, l4);
    assert(Seq::<char>::empty() + unlines(l4) =~= wc);
    let s4 = ParseState { css: wc, ..s3 };
    assert(parse_lines(l1 + l2 + l3 + l4) == Ok::<ParseState, Seq<char>>(s4));
    lemma_parse_one(s4, "---tree---"@);
    let s5 = ParseState { section: Section::Tree, ..s4 };
    lemma_marker_steps(s4);
    assert(parse_lines(l1 + l2 + l3 + l4 + l5) == Ok::<ParseState, Seq<char>>(s5));
    lemma_tree_lines(s5, nodes);
    assert(Seq::<NodeModel>::empty() + nodes =~= nodes);
    let s6 = ParseState { nodes, ..s5 };
    assert(parse_lines(l1 + l2 + l3 + l4 + l5 + l6) == Ok::<ParseState, Seq<char>>(s6));
    lemma_parse_one(s6, "---mut---"@);
    let s7 = ParseState { section: Section::Muts, ..s6 };
    lemma_marker_steps(s6);
    assert(parse_lines(l1 + l2 + l3 + l4 + l5 + l6 + l7) == Ok::<ParseState, Seq<char>>(s7));
    lemma_mut_lines(s7, muts);
    assert(Seq::<MutModel>::empty() + muts =~= muts);
}

/// Writing a fixture and reading its text back gives the same name, sheets, nodes and
/// mutations, for fixtures whose text can carry them: a one-word name, sheets whose
/// lines are neither comments nor section markers, and cells free of the separators.
pub proof fn lemma_write_then_parse(
    name: Seq<char>,
    rules: i32,
    base: Seq<char>,
    css: Seq<char>,
    nodes: Seq<NodeModel>,
    muts: Seq<MutModel>,
)
    requires
        fixture_safe(name, base, css, nodes, muts),
        nodes.len() >= 1,
    ensures
        parse_spec(fixture_text(name, rules as int, base, css, nodes, muts)) == Ok::<
            ParseState,
            Seq<char>,
        >(
            ParseState {
                section: Section::Muts,
                name,
                base: with_final_newline(base),
                css: with_final_newline(css),
                nodes,
                muts,
            },
        ),
{
    lemma_text_is_lines(name, rules as int, base, css, nodes, muts);
    lemma_lines_plain(name, rules as int, base, css, nodes, muts);
    lemma_lines_unlines(fixture_lines(name, rules as int, base, css, nodes, muts));
    lemma_parse_sections(name, rules as int, base, css, nodes, muts);
}

} // verus!
