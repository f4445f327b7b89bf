//! The fixture's text: the sections and lines that both runners read.
use vstd::prelude::*;
use vstd::string::*;
use crate::model::{
    attrs_view, muts_view, nodes_view, opt_view, strings_view, Attr, Fixture, Mut, MutModel,
    NodeModel, Node,
};
use crate::text::{decimal, join_with, push_char, push_int, push_str, unlines};

verus! {

/// The classes cell of a tree line: the classes joined with commas.
pub open spec fn classes_cell(cs: Seq<Seq<char>>) -> Seq<char> {
    join_with(cs, ',')
}

/// One attribute as `name=value`.
pub open spec fn attr_text(a: (Seq<char>, Seq<char>)) -> Seq<char> {
    a.0.push('=') + a.1
}

/// The `name=value` form of each attribute.
pub open spec fn attr_texts(attrs: Seq<(Seq<char>, Seq<char>)>) -> Seq<Seq<char>> {
    Seq::new(attrs.len(), |i: int| attr_text(attrs[i]))
}

/// The attributes cell of a tree line: `name=value` pairs joined with commas.
pub open spec fn attrs_cell(attrs: Seq<(Seq<char>, Seq<char>)>) -> Seq<char> {
    join_with(attr_texts(attrs), ',')
}

/// The id cell: the id, or `-` for none.
pub open spec fn id_cell(d: Option<Seq<char>>) -> Seq<char> {
    match d {
        Some(s) => s,
        None => seq!['-'],
    }
}

/// The cells of the tree line of node `i`.
pub open spec fn tree_cells(i: int, n: NodeModel) -> Seq<Seq<char>> {
    seq![
        decimal(i),
        decimal(n.parent),
        n.tag,
        id_cell(n.dom_id),
        classes_cell(n.classes),
        attrs_cell(n.attrs),
    ]
}

/// The line of node `i` in the tree section.
pub open spec fn tree_line(i: int, n: NodeModel) -> Seq<char> {
    join_with(tree_cells(i, n), '\t')
}

/// The cells of a line of the mutation section.
pub open spec fn mut_cells(m: MutModel) -> Seq<Seq<char>> {
    match m {
        MutModel::AddClass { id, class } => seq!["+class"@, decimal(id), class],
        MutModel::RemoveClass { id } => seq!["-class"@, decimal(id)],
        MutModel::SetAttr { id, name, value } => seq!["+attr"@, decimal(id), name.push('=') + value],
        MutModel::RemoveAttr { id, name } => seq!["-attr"@, decimal(id), name],
        MutModel::AddLeaf { id, parent, at, tag, dom_id, classes, attrs } => seq![
            "+leaf"@,
            decimal(id),
            decimal(parent),
            decimal(at),
            tag,
            id_cell(dom_id),
            classes_cell(classes),
            attrs_cell(attrs),
        ],
        MutModel::RemoveLeaf { id } => seq!["-leaf"@, decimal(id)],
        MutModel::Restyle => seq!["restyle"@],
    }
}

/// The line of a mutation.
pub open spec fn mut_line(m: MutModel) -> Seq<char> {
    join_with(mut_cells(m), '\t')
}

/// `s`, with a line break added unless it already ends with one.
pub open spec fn with_final_newline(s: Seq<char>) -> Seq<char> {
    if s.len() > 0 && s.last() == '\n' {
        s
    } else {
        s.push('\n')
    }
}

/// The lines of the tree section.
pub open spec fn tree_lines(nodes: Seq<NodeModel>) -> Seq<Seq<char>> {
    Seq::new(nodes.len(), |i: int| tree_line(i, nodes[i]))
}

/// The lines of the mutation section.
pub open spec fn mut_lines(muts: Seq<MutModel>) -> Seq<Seq<char>> {
    Seq::new(muts.len(), |i: int| mut_line(muts[i]))
}

/// The comment line that carries the name and the sizes.
pub open spec fn name_line(name: Seq<char>, elements: int, rules: int) -> Seq<char> {
    "# name="@ + name + " elements="@ + decimal(elements) + " rules="@ + decimal(rules)
}

/// The whole fixture text.
pub open spec fn fixture_text(
    name: Seq<char>,
    rules: int,
    base: Seq<char>,
    css: Seq<char>,
    nodes: Seq<NodeModel>,
    muts: Seq<MutModel>,
) -> Seq<char> {
    unlines(seq!["# stylebench-fixture 1"@, name_line(name, nodes.len() as int, rules), "---base---"@])
        + with_final_newline(base) + unlines(seq!["---css---"@]) + with_final_newline(css)
        + unlines(seq!["---tree---"@]) + unlines(tree_lines(nodes)) + unlines(seq!["---mut---"@])
        + unlines(mut_lines(muts))
}

/// Appends `pieces` joined with `sep` one piece at a time: the step from `k` pieces to `k + 1`.
proof fn lemma_join_step(ps: Seq<Seq<char>>, k: int, sep: char)
    requires
        1 <= k < ps.len(),
    ensures
        join_with(ps.take(k + 1), sep) == join_with(ps.take(k), sep).push(sep) + ps[k],
{
    assert(ps.take(k + 1).drop_last() == ps.take(k));
    assert(ps.take(k + 1).last() == ps[k]);
}

/// The classes joined with commas.
pub fn fmt_classes(classes: &[String]) -> (r: String)
    ensures
        r@ == classes_cell(strings_view(classes@)),
{
    let ghost cs = strings_view(classes@);
    let mut s = String::new();
    let mut i: usize = 0;
    while i < classes.len()
        invariant
            i <= classes.len(),
            cs == strings_view(classes@),
            i == 0 ==> s@ == Seq::<char>::empty(),
            i > 0 ==> s@ == join_with(cs.take(i as int), ','),
        decreases classes.len() - i,
    {
        if i > 0 {
            push_char(&mut s, ',');
            proof {
                lemma_join_step(cs, i as int, ',');
            }
        } else {
            proof {
                assert(cs.take(1) == seq![cs[0]]);
            }
        }
        push_str(&mut s, classes[i].as_str());
        i = i + 1;
    }
    proof {
        if classes.len() > 0 {
            assert(cs.take(classes.len() as int) == cs);
        } else {
            assert(cs.len() == 0);
        }
    }
    s
}

/// The attributes as `name=value` pairs joined with commas.
pub fn fmt_attrs(attrs: &[Attr]) -> (r: String)
    ensures
        r@ == attrs_cell(attrs_view(attrs@)),
{
    let ghost ts = attr_texts(attrs_view(attrs@));
    let mut s = String::new();
    let mut i: usize = 0;
    while i < attrs.len()
        invariant
            i <= attrs.len(),
            ts == attr_texts(attrs_view(attrs@)),
            ts.len() == attrs.len(),
            i == 0 ==> s@ == Seq::<char>::empty(),
            i > 0 ==> s@ == join_with(ts.take(i as int), ','),
        decreases attrs.len() - i,
    {
        let ghost before = s@;
        if i > 0 {
            push_char(&mut s, ',');
        }
        push_str(&mut s, attrs[i].name.as_str());
        push_char(&mut s, '=');
        push_str(&mut s, attrs[i].value.as_str());
        proof {
            assert(ts[i as int] == attrs@[i as int].name@.push('=') + attrs@[i as int].value@);
            if i > 0 {
                lemma_join_step(ts, i as int, ',');
                assert(s@ =~= before.push(',') + ts[i as int]);
            } else {
                assert(ts.take(1) == seq![ts[0]]);
                assert(s@ =~= ts[0]);
            }
        }
        i = i + 1;
    }
    proof {
        if attrs.len() > 0 {
            assert(ts.take(attrs.len() as int) == ts);
        } else {
            assert(ts.len() == 0);
        }
    }
    s
}

/// Appends the id cell.
fn push_id_cell(s: &mut String, d: &Option<String>)
    ensures
        final(s)@ == old(s)@ + id_cell(opt_view(*d)),
{
    match d {
        Some(v) => push_str(s, v.as_str()),
        None => {
            push_char(s, '-');
            proof {
                assert(old(s)@.push('-') == old(s)@ + seq!['-']);
            }
        },
    }
}

/// Appends `sep` then `cell` to a line being joined: the step from `k` cells to `k + 1`.
proof fn lemma_cell_step(cells: Seq<Seq<char>>, k: int, before: Seq<char>, after: Seq<char>)
    requires
        1 <= k < cells.len(),
        before == join_with(cells.take(k), '\t'),
        after == before.push('\t') + cells[k],
    ensures
        after == join_with(cells.take(k + 1), '\t'),
{
    lemma_join_step(cells, k, '\t');
}

/// Appends the line of node `i`, without the line break.
fn push_tree_line(s: &mut String, i: usize, n: &Node)
    requires
        i <= i64::MAX,
    ensures
        final(s)@ == old(s)@ + tree_line(i as int, n@),
{
    let ghost cells = tree_cells(i as int, n@);
    let ghost start = s@;
    let mut line = String::new();
    push_int(&mut line, i as i64);
    proof {
        assert(cells.take(1) == seq![cells[0]]);
        assert(line@ =~= decimal(i as int));
    }
    let ghost b1 = line@;
    push_char(&mut line, '\t');
    push_int(&mut line, n.parent as i64);
    proof {
        lemma_cell_step(cells, 1, b1, line@);
    }
    let ghost b2 = line@;
    push_char(&mut line, '\t');
    push_str(&mut line, n.tag.as_str());
    proof {
        lemma_cell_step(cells, 2, b2, line@);
    }
    let ghost b3 = line@;
    push_char(&mut line, '\t');
    push_id_cell(&mut line, &n.dom_id);
    proof {
        lemma_cell_step(cells, 3, b3, line@);
    }
    let ghost b4 = line@;
    push_char(&mut line, '\t');
    let c = fmt_classes(n.classes.as_slice());
    push_str(&mut line, c.as_str());
    proof {
        lemma_cell_step(cells, 4, b4, line@);
    }
    let ghost b5 = line@;
    push_char(&mut line, '\t');
    let a = fmt_attrs(n.attrs.as_slice());
    push_str(&mut line, a.as_str());
    proof {
        lemma_cell_step(cells, 5, b5, line@);
        assert(cells.take(6) == cells);
    }
    push_str(s, line.as_str());
}

/// Appends the cells of `cells` joined with tabs, where the first is already in `line`.
fn push_mut_line(s: &mut String, m: &Mut)
    ensures
        final(s)@ == old(s)@ + mut_line(m@),
{
    let ghost cells = mut_cells(m@);
    let mut line = String::new();
    match m {
        Mut::AddClass { id, class } => {
            push_str(&mut line, "+class");
            proof {
                assert(cells.take(1) == seq![cells[0]]);
                assert(line@ =~= cells[0]);
            }
            let ghost b1 = line@;
            push_char(&mut line, '\t');
            push_int(&mut line, *id as i64);
            proof {
                lemma_cell_step(cells, 1, b1, line@);
            }
            let ghost b2 = line@;
            push_char(&mut line, '\t');
            push_str(&mut line, class.as_str());
            proof {
                lemma_cell_step(cells, 2, b2, line@);
                assert(cells.take(3) == cells);
            }
        },
        Mut::RemoveClass { id } => {
            push_str(&mut line, "-class");
            proof {
                assert(cells.take(1) == seq![cells[0]]);
                assert(line@ =~= cells[0]);
            }
            let ghost b1 = line@;
            push_char(&mut line, '\t');
            push_int(&mut line, *id as i64);
            proof {
                lemma_cell_step(cells, 1, b1, line@);
                assert(cells.take(2) == cells);
            }
        },
        Mut::SetAttr { id, name, value } => {
            push_str(&mut line, "+attr");
            proof {
                assert(cells.take(1) == seq![cells[0]]);
                assert(line@ =~= cells[0]);
            }
            let ghost b1 = line@;
            push_char(&mut line, '\t');
            push_int(&mut line, *id as i64);
            proof {
                lemma_cell_step(cells, 1, b1, line@);
            }
            let ghost b2 = line@;
            push_char(&mut line, '\t');
            push_str(&mut line, name.as_str());
            push_char(&mut line, '=');
            push_str(&mut line, value.as_str());
            proof {
                assert(line@ =~= b2.push('\t') + cells[2]);
                lemma_cell_step(cells, 2, b2, line@);
                assert(cells.take(3) == cells);
            }
        },
        Mut::RemoveAttr { id, name } => {
            push_str(&mut line, "-attr");
            proof {
                assert(cells.take(1) == seq![cells[0]]);
                assert(line@ =~= cells[0]);
            }
            let ghost b1 = line@;
            push_char(&mut line, '\t');
            push_int(&mut line, *id as i64);
            proof {
                lemma_cell_step(cells, 1, b1, line@);
            }
            let ghost b2 = line@;
            push_char(&mut line, '\t');
            push_str(&mut line, name.as_str());
            proof {
                lemma_cell_step(cells, 2, b2, line@);
                assert(cells.take(3) == cells);
            }
        },
        Mut::AddLeaf { id, parent, at, tag, dom_id, classes, attrs } => {
            push_str(&mut line, "+leaf");
            proof {
                assert(cells.take(1) == seq![cells[0]]);
                assert(line@ =~= cells[0]);
            }
            let ghost b1 = line@;
            push_char(&mut line, '\t');
            push_int(&mut line, *id as i64);
            proof {
                lemma_cell_step(cells, 1, b1, line@);
            }
            let ghost b2 = line@;
            push_char(&mut line, '\t');
            push_int(&mut line, *parent as i64);
            proof {
                lemma_cell_step(cells, 2, b2, line@);
            }
            let ghost b3 = line@;
            push_char(&mut line, '\t');
            push_int(&mut line, *at as i64);
            proof {
                lemma_cell_step(cells, 3, b3, line@);
            }
            let ghost b4 = line@;
            push_char(&mut line, '\t');
            push_str(&mut line, tag.as_str());
            proof {
                lemma_cell_step(cells, 4, b4, line@);
            }
            let ghost b5 = line@;
            push_char(&mut line, '\t');
            push_id_cell(&mut line, dom_id);
            proof {
                lemma_cell_step(cells, 5, b5, line@);
            }
            let ghost b6 = line@;
            push_char(&mut line, '\t');
            let c = fmt_classes(classes.as_slice());
            push_str(&mut line, c.as_str());
            proof {
                lemma_cell_step(cells, 6, b6, line@);
            }
            let ghost b7 = line@;
            push_char(&mut line, '\t');
            let a = fmt_attrs(attrs.as_slice());
            push_str(&mut line, a.as_str());
            proof {
                lemma_cell_step(cells, 7, b7, line@);
                assert(cells.take(8) == cells);
            }
        },
        Mut::RemoveLeaf { id } => {
            push_str(&mut line, "-leaf");
            proof {
                assert(cells.take(1) == seq![cells[0]]);
                assert(line@ =~= cells[0]);
            }
            let ghost b1 = line@;
            push_char(&mut line, '\t');
            push_int(&mut line, *id as i64);
            proof {
                lemma_cell_step(cells, 1, b1, line@);
                assert(cells.take(2) == cells);
            }
        },
        Mut::Restyle => {
            push_str(&mut line, "restyle");
            proof {
                assert(cells.len() == 1);
                assert(line@ =~= cells[0]);
            }
        },
    }
    push_str(s, line.as_str());
}

/// Appends `t` then a line break when `t` does not already end with one.
fn push_block(s: &mut String, t: &String)
    ensures
        final(s)@ == old(s)@ + with_final_newline(t@),
{
    push_str(s, t.as_str());
    let n = t.as_str().unicode_len();
    if n == 0 || t.as_str().get_char(n - 1) != '\n' {
        push_char(s, '\n');
        proof {
            assert(old(s)@ + t@.push('\n') =~= (old(s)@ + t@).push('\n'));
        }
    }
}

/// Appends `line` and a line break: the step of `unlines`.
proof fn lemma_unlines_step(ls: Seq<Seq<char>>, k: int)
    requires
        0 <= k < ls.len(),
    ensures
        unlines(ls.take(k + 1)) == unlines(ls.take(k)) + ls[k].push('\n'),
{
    assert(ls.take(k + 1).drop_last() == ls.take(k));
}

proof fn lemma_unlines_one(l: Seq<char>)
    ensures
        unlines(seq![l]) == l.push('\n'),
{
    assert(seq![l].drop_last() =~= Seq::<Seq<char>>::empty());
    assert(unlines(seq![l].drop_last()) == Seq::<char>::empty());
    assert(seq![l].last() == l);
    assert(Seq::<char>::empty() + l.push('\n') =~= l.push('\n'));
}

impl Fixture {
    /// The number of leaves that the mutation script adds.
    pub fn leaf_adds(&self) -> (n: usize)
        ensures
            n == leaf_add_count(muts_view(self.mutations@)),
    {
        let mut n: usize = 0;
        let mut i: usize = 0;
        while i < self.mutations.len()
            invariant
                i <= self.mutations.len(),
                n == leaf_add_count(muts_view(self.mutations@).take(i as int)),
                n <= i,
            decreases self.mutations.len() - i,
        {
            proof {
                let ms = muts_view(self.mutations@);
                assert(ms.take(i + 1).drop_last() == ms.take(i as int));
                assert(ms.take(i + 1).last() == self.mutations@[i as int]@);
            }
            if let Mut::AddLeaf { .. } = &self.mutations[i] {
                n = n + 1;
            }
            i = i + 1;
        }
        proof {
            assert(muts_view(self.mutations@).take(i as int) == muts_view(self.mutations@));
        }
        n
    }

    /// The fixture's text, as both runners read it: the name and sizes, the base sheet,
    /// the generated sheet, one line per tree node and one per mutation.
    pub fn write(&self) -> (text: String)
        requires
            self.nodes@.len() <= i64::MAX,
        ensures
            text@ == fixture_text(
                self.config.name@,
                self.config.rule_count as int,
                self.base_css@,
                self.css@,
                nodes_view(self.nodes@),
                muts_view(self.mutations@),
            ),
    {
        let ghost nodes = nodes_view(self.nodes@);
        let ghost muts = muts_view(self.mutations@);
        let mut s = String::new();
        let ghost head = seq![
            "# stylebench-fixture 1"@,
            name_line(self.config.name@, nodes.len() as int, self.config.rule_count as int),
            "---base---"@,
        ];
        push_str(&mut s, "# stylebench-fixture 1");
        push_char(&mut s, '\n');
        proof {
            lemma_unlines_step(head, 0);
            assert(head.take(0) == Seq::<Seq<char>>::empty());
            assert(s@ =~= unlines(head.take(1)));
        }
        let ghost h1 = s@;
        push_str(&mut s, "# name=");
        push_str(&mut s, self.config.name.as_str());
        push_str(&mut s, " elements=");
        push_int(&mut s, self.nodes.len() as i64);
        push_str(&mut s, " rules=");
        push_int(&mut s, self.config.rule_count as i64);
        push_char(&mut s, '\n');
        proof {
            lemma_unlines_step(head, 1);
            assert(s@ =~= h1 + head[1].push('\n'));
        }
        let ghost h2 = s@;
        push_str(&mut s, "---base---");
        push_char(&mut s, '\n');
        proof {
            lemma_unlines_step(head, 2);
            assert(s@ =~= h2 + head[2].push('\n'));
            assert(head.take(3) == head);
        }
        let ghost p1 = s@;
        push_block(&mut s, &self.base_css);
        let ghost p2 = s@;
        push_str(&mut s, "---css---");
        push_char(&mut s, '\n');
        proof {
            lemma_unlines_one("---css---"@);
            assert(s@ =~= p2 + unlines(seq!["---css---"@]));
        }
        push_block(&mut s, &self.css);
        let ghost p3 = s@;
        push_str(&mut s, "---tree---");
        push_char(&mut s, '\n');
        proof {
            lemma_unlines_one("---tree---"@);
            assert(s@ =~= p3 + unlines(seq!["---tree---"@]));
        }
        let ghost p4 = s@;
        let ghost tl = tree_lines(nodes);
        let mut i: usize = 0;
        while i < self.nodes.len()
            invariant
                i <= self.nodes.len(),
                self.nodes@.len() <= i64::MAX,
                nodes == nodes_view(self.nodes@),
                tl == tree_lines(nodes),
                s@ == p4 + unlines(tl.take(i as int)),
            decreases self.nodes.len() - i,
        {
            let ghost before = s@;
            push_tree_line(&mut s, i, &self.nodes[i]);
            push_char(&mut s, '\n');
            proof {
                lemma_unlines_step(tl, i as int);
                assert(tl[i as int] == tree_line(i as int, self.nodes@[i as int]@));
                assert(s@ =~= p4 + unlines(tl.take(i + 1)));
            }
            i = i + 1;
        }
        proof {
            assert(tl.take(i as int) == tl);
        }
        let ghost p5 = s@;
        push_str(&mut s, "---mut---");
        push_char(&mut s, '\n');
        proof {
            lemma_unlines_one("---mut---"@);
            assert(s@ =~= p5 + unlines(seq!["---mut---"@]));
        }
        let ghost p6 = s@;
        let ghost ml = mut_lines(muts);
        let mut j: usize = 0;
        while j < self.mutations.len()
            invariant
                j <= self.mutations.len(),
                muts == muts_view(self.mutations@),
                ml == mut_lines(muts),
                s@ == p6 + unlines(ml.take(j as int)),
            decreases self.mutations.len() - j,
        {
            push_mut_line(&mut s, &self.mutations[j]);
            push_char(&mut s, '\n');
            proof {
                lemma_unlines_step(ml, j as int);
                assert(ml[j as int] == mut_line(self.mutations@[j as int]@));
                assert(s@ =~= p6 + unlines(ml.take(j + 1)));
            }
            j = j + 1;
        }
        proof {
            assert(ml.take(j as int) == ml);
        }
        s
    }
}

/// The number of leaf additions in a mutation script.
pub open spec fn leaf_add_count(ms: Seq<MutModel>) -> nat
    decreases ms.len(),
{
    if ms.len() == 0 {
        0
    } else {
        leaf_add_count(ms.drop_last()) + if ms.last() is AddLeaf {
            1nat
        } else {
            0nat
        }
    }
}

} // verus!
