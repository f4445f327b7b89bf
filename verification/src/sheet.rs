//! The generated style sheet: one rule per line, each setting `background-color`.
use vstd::prelude::*;
use vstd::string::*;
use crate::model::{strings_view, Config};
use crate::names::{
    is_word, lemma_decimal_word, lemma_line_concat, lemma_name_literals, lemma_word_line,
    line_text, numbered, random_attribute_name, random_attribute_value,
    random_class_name_from_range, random_element_name, random_id, range_maximum, id_pool,
    value_text, word_char,
};
use crate::random::{
    chance_draw, lcg_step, lemma_weighted_below, number_draw, seed_state, weighted_draw, Random,
};
use crate::roundtrip::{body_line, sheet_safe};
use crate::text::{
    chars_of, decimal, eq_str, has_prefix, lemma_lines_unlines, lines_of, plain_line, plain_text, push_char,
    push_int, push_str, unlines,
};

verus! {

/// The configuration's own strings, which end up in selectors, hold no line breaks.
pub open spec fn config_plain(cfg: Config) -> bool {
    &&& forall|i: int|
        0 <= i < cfg.combinators@.len() ==> line_text(#[trigger] cfg.combinators@[i]@)
    &&& forall|i: int|
        0 <= i < cfg.pseudo_classes@.len() ==> line_text(#[trigger] cfg.pseudo_classes@[i]@)
    &&& forall|i: int|
        0 <= i < cfg.attribute_operators@.len() ==> line_text(
            #[trigger] cfg.attribute_operators@[i]@,
        )
}

/// What a compound indexes into is there: an attribute operator whenever attributes can
/// be drawn, and every list fits `i32`.
pub open spec fn compound_config_ok(cfg: Config) -> bool {
    &&& cfg.attribute_chance != 0 ==> cfg.attribute_operators@.len() > 0
    &&& cfg.attribute_operators@.len() <= i32::MAX
    &&& cfg.combinators@.len() <= i32::MAX
    &&& cfg.pseudo_classes@.len() <= i32::MAX
}

/// The selector drawn from state `s` can join its compounds: there is a combinator, or
/// the drawn selector has a single compound.
pub open spec fn selector_draw_ok(cfg: Config, s: int) -> bool {
    cfg.combinators@.len() > 0 || number_draw(s, cfg.maximum_selector_length as int).1 == 0
}

/// Each of the `count` selectors of a sheet drawn from state `s` can join its compounds.
pub open spec fn sheet_draw_ok(cfg: Config, s: int, count: int) -> bool {
    forall|i: int| 0 <= i < count ==> selector_draw_ok(cfg, #[trigger] rules_draw(cfg, s, i).0)
}

/// A configuration with a combinator, or with one-compound selectors, can draw any sheet.
pub proof fn lemma_sheet_draw_ok(cfg: Config, s: int, count: int)
    requires
        cfg.combinators@.len() > 0 || cfg.maximum_selector_length <= 1,
    ensures
        sheet_draw_ok(cfg, s, count),
{
    assert forall|i: int| 0 <= i < count implies selector_draw_ok(cfg, #[trigger] rules_draw(cfg, s, i).0) by {
        let t = rules_draw(cfg, s, i).0;
        if cfg.combinators@.len() == 0 && cfg.maximum_selector_length == 1 {
            assert(lcg_step(t) % 1 == 0);
        }
    }
}

/// `background-color: rgb(a, b, c);`
pub open spec fn declaration_text(a: int, b: int, c: int) -> Seq<char> {
    "background-color: rgb("@ + decimal(a) + ", "@ + decimal(b) + ", "@ + decimal(c) + ");"@
}

/// A rule: the selector, then the declaration in braces.
pub open spec fn rule_text(selector: Seq<char>, declaration: Seq<char>) -> Seq<char> {
    selector + " { "@ + declaration + " }"@
}

/// How a selector begins: with an element name, a class, an attribute, or `#i` of an id.
pub open spec fn selector_start(s: Seq<char>) -> bool {
    &&& s.len() >= 2
    &&& s[0] == 'e' || s[0] == '.' || s[0] == '[' || (s[0] == '#' && s[1] == 'i')
}

/// A line of the generated sheet: a selector and a background color in `[0, 256)^3`.
pub open spec fn is_rule_line(l: Seq<char>) -> bool {
    exists|sel: Seq<char>, a: int, b: int, c: int|
        {
            &&& 0 <= a < 256
            &&& 0 <= b < 256
            &&& 0 <= c < 256
            &&& selector_start(sel)
            &&& #[trigger] rule_text(sel, declaration_text(a, b, c)) == l
        }
}

/// The state after, and the text of, an attribute selector drawn from state `s`: a name,
/// an operator (weighted to the first), and for a non-empty operator a quoted value.
pub open spec fn attr_selector_draw(cfg: Config, s: int) -> (int, Seq<char>) {
    let (s1, n) = weighted_draw(s, cfg.attribute_count as int);
    let (s2, k) = weighted_draw(s1, cfg.attribute_operators@.len() as int);
    let op = cfg.attribute_operators@[k]@;
    let name = numbered("attr"@, n);
    if op.len() == 0 {
        (s2, seq!['['] + name + seq![']'])
    } else {
        let (s3, v) = weighted_draw(s2, cfg.attribute_value_count as int);
        (s3, seq!['['] + name + op + seq!['"'] + value_text(v) + seq!['"', ']'])
    }
}

/// The state after, and the name of, a pseudo-class drawn from state `s`, `tries` draws
/// into the redrawing: `empty` is drawn again unless the compound is the subject (after
/// `u64::MAX` redraws, it is kept).
pub open spec fn pseudo_draw(cfg: Config, s: int, is_last: bool, tries: int) -> (int, Seq<char>)
    decreases u64::MAX - tries,
{
    let (s1, k) = number_draw(s, cfg.pseudo_classes@.len() as int);
    let pc = cfg.pseudo_classes@[k]@;
    if is_last || pc != "empty"@ || tries >= u64::MAX {
        (s1, pc)
    } else {
        pseudo_draw(cfg, s1, is_last, tries + 1)
    }
}

/// The state after, and the text of, `count` class selectors for compound `index` of
/// `length`, each drawn from the class range of that compound.
pub open spec fn class_selectors_draw(cfg: Config, s: int, index: int, length: int, count: int) -> (
    int,
    Seq<char>,
)
    decreases count,
{
    if count <= 0 {
        (s, Seq::empty())
    } else {
        let (s1, t) = class_selectors_draw(cfg, s, index, length, count - 1);
        let (s2, v) = weighted_draw(s1, range_maximum(index, length, cfg.class_count as int));
        (s2, t + seq!['.'] + numbered("class"@, v))
    }
}

/// Which parts a compound selector has.
pub struct CompoundParts {
    pub pseudo: bool,
    pub id: bool,
    pub element: bool,
    pub attribute: bool,
    pub star: bool,
    pub class: bool,
}

/// The state after, and the outcome of, the rolls for compound `index`, drawn from state
/// `s` as StyleBench draws them: the pseudo-class, id, element, attribute, star and class
/// rolls in that order, each only when it can matter.
pub open spec fn parts_draw(cfg: Config, s: int, index: int) -> (int, CompoundParts) {
    let is_first = index == 0;
    let (s1, pc) = chance_draw(s, cfg.pseudo_class_chance as int);
    let use_pseudo = pc && cfg.pseudo_classes@.len() > 0;
    let (s2, id_roll) = if is_first {
        chance_draw(s1, cfg.id_chance as int)
    } else {
        (s1, false)
    };
    let use_id = is_first && id_roll;
    let (s3, element_roll) = if !use_id && !use_pseudo {
        chance_draw(s2, cfg.element_chance as int)
    } else {
        (s2, false)
    };
    let use_element = !use_id && (use_pseudo || element_roll);
    let (s4, attribute_roll) = if !use_id {
        chance_draw(s3, cfg.attribute_chance as int)
    } else {
        (s3, false)
    };
    let use_attribute = !use_id && attribute_roll;
    let marked = use_id || use_element || use_attribute;
    let (s5, star_roll) = if !marked && !is_first {
        chance_draw(s4, cfg.star_chance as int)
    } else {
        (s4, false)
    };
    let use_star = !marked && !is_first && star_roll;
    let (s6, class_roll) = if !use_id && !use_star && marked {
        chance_draw(s5, cfg.class_chance as int)
    } else {
        (s5, false)
    };
    let use_class = !use_id && !use_star && (!marked || class_roll);
    (
        s6,
        CompoundParts {
            pseudo: use_pseudo,
            id: use_id,
            element: use_element,
            attribute: use_attribute,
            star: use_star,
            class: use_class,
        },
    )
}

/// The state after, and the text of, compound `index` of `length` with the given parts,
/// drawn from state `s`: the element name, star, id, classes, attribute and pseudo-class.
pub open spec fn parts_text_draw(cfg: Config, s: int, index: int, length: int, f: CompoundParts) -> (
    int,
    Seq<char>,
) {
    let (s7, t1) = if f.element {
        let (t, v) = weighted_draw(s, cfg.element_type_count as int);
        (t, numbered("elem"@, v))
    } else {
        (s, Seq::empty())
    };
    let t2 = if f.star {
        seq!['*']
    } else {
        t1
    };
    let (s8, t3) = if f.id {
        let (t, v) = number_draw(s7, id_pool(cfg.id_chance as int, cfg.element_count as int));
        (t, t2 + seq!['#'] + numbered("id"@, v))
    } else {
        (s7, t2)
    };
    let (s10, t4) = if f.class {
        let (s9, c) = weighted_draw(s8, 2);
        let (t, cs) = class_selectors_draw(cfg, s9, index, length, c + 1);
        (t, t3 + cs)
    } else {
        (s8, t3)
    };
    let (s11, t5) = if f.attribute {
        let (t, a) = attr_selector_draw(cfg, s10);
        (t, t4 + a)
    } else {
        (s10, t4)
    };
    if f.pseudo {
        let (t, p) = pseudo_draw(cfg, s11, index == length - 1, 0);
        (t, t5 + seq![':'] + p)
    } else {
        (s11, t5)
    }
}

/// The state after, and the text of, compound `index` of a selector of `length`
/// compounds, drawn from state `s`.
pub open spec fn compound_draw(cfg: Config, s: int, index: int, length: int) -> (int, Seq<char>) {
    let (s6, f) = parts_draw(cfg, s, index);
    parts_text_draw(cfg, s6, index, length, f)
}

/// What joins two compounds: a space, or the combinator between spaces.
pub open spec fn joiner(combinator: Seq<char>) -> Seq<char> {
    if combinator != seq![' '] {
        seq![' '] + combinator + seq![' ']
    } else {
        seq![' ']
    }
}

/// The state after, and the text of, compounds `1` to `n - 1` of a selector of `length`
/// compounds, each after a drawn combinator.
pub open spec fn selector_tail_draw(cfg: Config, s: int, length: int, n: int) -> (int, Seq<char>)
    decreases n,
{
    if n <= 1 {
        (s, Seq::empty())
    } else {
        let (s1, t) = selector_tail_draw(cfg, s, length, n - 1);
        let (s2, k) = number_draw(s1, cfg.combinators@.len() as int);
        let (s3, c) = compound_draw(cfg, s2, n - 1, length);
        (s3, t + joiner(cfg.combinators@[k]@) + c)
    }
}

/// The state after, and the text of, a selector drawn from state `s`: one to
/// `maximum_selector_length` compounds.
pub open spec fn selector_draw(cfg: Config, s: int) -> (int, Seq<char>) {
    let (s1, l) = number_draw(s, cfg.maximum_selector_length as int);
    let (s2, first) = compound_draw(cfg, s1, 0, l + 1);
    let (s3, tail) = selector_tail_draw(cfg, s2, l + 1, l + 1);
    (s3, first + tail)
}

/// The state after, and the text of, a rule drawn from state `s`.
pub open spec fn rule_draw(cfg: Config, s: int) -> (int, Seq<char>) {
    let (s1, sel) = selector_draw(cfg, s);
    let s2 = lcg_step(s1);
    let s3 = lcg_step(s2);
    let s4 = lcg_step(s3);
    (s4, rule_text(sel, declaration_text(s2 % 256, s3 % 256, s4 % 256)))
}

/// The state after, and the lines of, `count` rules drawn from state `s`.
pub open spec fn rules_draw(cfg: Config, s: int, count: int) -> (int, Seq<Seq<char>>)
    decreases count,
{
    if count <= 0 {
        (s, Seq::empty())
    } else {
        let (s1, rs) = rules_draw(cfg, s, count - 1);
        let (s2, r) = rule_draw(cfg, s1);
        (s2, rs.push(r))
    }
}

proof fn lemma_tail_prefix(cfg: Config, s: int, length: int, m: int, n: int)
    requires
        m <= n,
    ensures
        selector_tail_draw(cfg, s, length, n).1.len() >= selector_tail_draw(cfg, s, length, m).1.len(),
        selector_tail_draw(cfg, s, length, n).1.take(selector_tail_draw(cfg, s, length, m).1.len() as int)
            == selector_tail_draw(cfg, s, length, m).1,
    decreases n,
{
    let tm = selector_tail_draw(cfg, s, length, m).1;
    if m == n || n <= 1 {
        assert(m <= 1 ==> tm =~= Seq::<char>::empty());
        assert(selector_tail_draw(cfg, s, length, n).1.take(tm.len() as int) =~= tm);
    } else {
        lemma_tail_prefix(cfg, s, length, m, n - 1);
        let t = selector_tail_draw(cfg, s, length, n - 1).1;
        let tn = selector_tail_draw(cfg, s, length, n).1;
        assert(tn.take(t.len() as int) =~= t);
        assert(tn.take(tm.len() as int) =~= t.take(tm.len() as int));
    }
}

/// A selector of two or more compounds joins its first two compounds with the first
/// combinator drawn after the first compound: between spaces, or a lone space for the
/// descendant combinator.
pub proof fn lemma_selector_combinator(cfg: Config, s: int)
    ensures
        ({
            let (s1, l) = number_draw(s, cfg.maximum_selector_length as int);
            let (s2, first) = compound_draw(cfg, s1, 0, l + 1);
            let (s3, k) = number_draw(s2, cfg.combinators@.len() as int);
            let c = cfg.combinators@[k]@;
            let join = if c == seq![' '] {
                seq![' ']
            } else {
                seq![' '] + c + seq![' ']
            };
            let text = selector_draw(cfg, s).1;
            l >= 1 ==> text.len() >= first.len() + join.len() && text.take((first.len() + join.len()) as int)
                == first + join
        }),
{
    let (s1, l) = number_draw(s, cfg.maximum_selector_length as int);
    let (s2, first) = compound_draw(cfg, s1, 0, l + 1);
    if l >= 1 {
        lemma_tail_prefix(cfg, s2, l + 1, 2, l + 1);
        let t2 = selector_tail_draw(cfg, s2, l + 1, 2).1;
        let tail = selector_tail_draw(cfg, s2, l + 1, l + 1).1;
        let (s3, k) = number_draw(s2, cfg.combinators@.len() as int);
        let c = cfg.combinators@[k]@;
        let join = joiner(c);
        assert(selector_tail_draw(cfg, s2, l + 1, 1).1 =~= Seq::<char>::empty());
        assert(t2 =~= join + compound_draw(cfg, s3, 1, l + 1).1);
        let text = selector_draw(cfg, s).1;
        assert(text == first + tail);
        assert(text.take((first.len() + join.len()) as int) =~= first + join) by {
            assert forall|i: int| 0 <= i < first.len() + join.len() implies text[i] == (first + join)[i] by {
                if i >= first.len() {
                    assert(text[i] == tail[i - first.len()]);
                    assert(tail[i - first.len()] == tail.take(t2.len() as int)[i - first.len()]);
                    assert(t2[i - first.len()] == join[i - first.len()]);
                }
            }
        }
    }
}

/// The text of class selectors `.class<v>` for the numbers `vs`, in order.
pub open spec fn class_list(vs: Seq<int>) -> Seq<char>
    decreases vs.len(),
{
    if vs.len() == 0 {
        Seq::empty()
    } else {
        class_list(vs.drop_last()) + seq!['.'] + numbered("class"@, vs.last())
    }
}

/// The class selectors of compound `index` of `length` are drawn from the first
/// `range_maximum(index, length, class_count)` classes: each is `.class<v>` with `v`
/// below that bound (or `class0` when the bound is not positive).
pub proof fn lemma_class_range(cfg: Config, s: int, index: int, length: int, count: int) -> (vs: Seq<int>)
    requires
        count >= 0,
    ensures
        vs.len() == count,
        class_selectors_draw(cfg, s, index, length, count).1 == class_list(vs),
        forall|j: int|
            0 <= j < vs.len() ==> 0 <= #[trigger] vs[j] && (vs[j] < range_maximum(
                index,
                length,
                cfg.class_count as int,
            ) || (vs[j] == 0 && range_maximum(index, length, cfg.class_count as int) <= 0)),
    decreases count,
{
    if count == 0 {
        Seq::empty()
    } else {
        let prev = lemma_class_range(cfg, s, index, length, count - 1);
        let (s1, t) = class_selectors_draw(cfg, s, index, length, count - 1);
        let m = range_maximum(index, length, cfg.class_count as int);
        let (s2, v) = weighted_draw(s1, m);
        if m > 0 {
            lemma_weighted_below(s1, m);
        }
        let vs = prev.push(v);
        assert(vs.drop_last() =~= prev);
        assert forall|j: int| 0 <= j < vs.len() implies 0 <= #[trigger] vs[j] && (vs[j] < m || (vs[j]
            == 0 && m <= 0)) by {
            if j < prev.len() {
                assert(vs[j] == prev[j]);
            }
        }
        vs
    }
}

/// Two configurations agree on every knob that the sheet reads: they may differ in the
/// tree's shape and the mutation script (the DOM seed among them) only.
pub open spec fn sheet_knobs_agree(a: Config, b: Config) -> bool {
    &&& a.element_type_count == b.element_type_count
    &&& a.id_chance == b.id_chance
    &&& a.element_chance == b.element_chance
    &&& a.class_count == b.class_count
    &&& a.class_chance == b.class_chance
    &&& a.star_chance == b.star_chance
    &&& a.attribute_chance == b.attribute_chance
    &&& a.attribute_count == b.attribute_count
    &&& a.attribute_value_count == b.attribute_value_count
    &&& a.attribute_operators@ == b.attribute_operators@
    &&& a.combinators@ == b.combinators@
    &&& a.pseudo_classes@ == b.pseudo_classes@
    &&& a.pseudo_class_chance == b.pseudo_class_chance
    &&& a.maximum_selector_length == b.maximum_selector_length
    &&& a.element_count == b.element_count
    &&& a.rule_count == b.rule_count
    &&& a.style_seed == b.style_seed
}

/// The `k` pseudo-class draws from state `s` all give `empty`.
pub open spec fn empty_draws(cfg: Config, s: int, k: nat) -> bool
    decreases k,
{
    let (s1, i) = number_draw(s, cfg.pseudo_classes@.len() as int);
    k == 0 || (cfg.pseudo_classes@[i]@ == "empty"@ && empty_draws(cfg, s1, (k - 1) as nat))
}

proof fn lemma_pseudo_redrawn(cfg: Config, s: int, tries: int)
    requires
        0 <= tries <= u64::MAX,
        pseudo_draw(cfg, s, false, tries).1 == "empty"@,
    ensures
        empty_draws(cfg, s, (u64::MAX + 1 - tries) as nat),
    decreases u64::MAX - tries,
{
    let (s1, k) = number_draw(s, cfg.pseudo_classes@.len() as int);
    if tries < u64::MAX {
        lemma_pseudo_redrawn(cfg, s1, tries + 1);
    }
    assert(empty_draws(cfg, s1, (u64::MAX - tries) as nat) || tries == u64::MAX);
    if tries == u64::MAX {
        assert(empty_draws(cfg, s1, 0));
    }
}

/// Off the selector's subject, `empty` is drawn again: the pseudo-class is `empty` only
/// when each of the `2^64` draws the redrawing may make gives `empty`.
pub proof fn lemma_pseudo_not_empty(cfg: Config, s: int)
    ensures
        pseudo_draw(cfg, s, false, 0).1 == "empty"@ ==> empty_draws(cfg, s, (u64::MAX + 1) as nat),
{
    if pseudo_draw(cfg, s, false, 0).1 == "empty"@ {
        lemma_pseudo_redrawn(cfg, s, 0);
    }
}

/// What the text of a compound reads, once its parts are drawn, agrees.
pub open spec fn text_knobs_agree(a: Config, b: Config) -> bool {
    &&& a.element_type_count == b.element_type_count
    &&& a.id_chance == b.id_chance
    &&& a.element_count == b.element_count
    &&& a.class_count == b.class_count
    &&& a.attribute_count == b.attribute_count
    &&& a.attribute_value_count == b.attribute_value_count
    &&& a.attribute_operators@ == b.attribute_operators@
    &&& a.pseudo_classes@ == b.pseudo_classes@
}

proof fn lemma_pseudo_agree(a: Config, b: Config, s: int, is_last: bool, tries: int)
    requires
        a.pseudo_classes@ == b.pseudo_classes@,
    ensures
        pseudo_draw(a, s, is_last, tries) == pseudo_draw(b, s, is_last, tries),
    decreases u64::MAX - tries,
{
    let (s1, k) = number_draw(s, a.pseudo_classes@.len() as int);
    let pc = a.pseudo_classes@[k]@;
    if !(is_last || pc != "empty"@ || tries >= u64::MAX) {
        lemma_pseudo_agree(a, b, s1, is_last, tries + 1);
    }
}

proof fn lemma_class_selectors_agree(a: Config, b: Config, s: int, index: int, length: int, count: int)
    requires
        a.class_count == b.class_count,
    ensures
        class_selectors_draw(a, s, index, length, count) == class_selectors_draw(b, s, index, length, count),
    decreases count,
{
    if count > 0 {
        lemma_class_selectors_agree(a, b, s, index, length, count - 1);
    }
}

proof fn lemma_parts_text_agree(a: Config, b: Config, s: int, index: int, length: int, f: CompoundParts)
    requires
        text_knobs_agree(a, b),
    ensures
        parts_text_draw(a, s, index, length, f) == parts_text_draw(b, s, index, length, f),
{
    assert forall|t: int, c: int| #[trigger] class_selectors_draw(a, t, index, length, c)
        == class_selectors_draw(b, t, index, length, c) by {
        lemma_class_selectors_agree(a, b, t, index, length, c);
    }
    let last = index == length - 1;
    assert forall|t: int| #[trigger] pseudo_draw(a, t, last, 0) == pseudo_draw(b, t, last, 0) by {
        lemma_pseudo_agree(a, b, t, last, 0);
    }
}

proof fn lemma_selector_tail_agree(a: Config, b: Config, s: int, length: int, n: int)
    requires
        sheet_knobs_agree(a, b),
    ensures
        selector_tail_draw(a, s, length, n) == selector_tail_draw(b, s, length, n),
    decreases n,
{
    if n > 1 {
        lemma_selector_tail_agree(a, b, s, length, n - 1);
        let (s1, t) = selector_tail_draw(a, s, length, n - 1);
        let (s2, k) = number_draw(s1, a.combinators@.len() as int);
        let (s6, f) = parts_draw(a, s2, n - 1);
        lemma_parts_text_agree(a, b, s6, n - 1, length, f);
    }
}

proof fn lemma_rules_agree(a: Config, b: Config, s: int, count: int)
    requires
        sheet_knobs_agree(a, b),
    ensures
        rules_draw(a, s, count) == rules_draw(b, s, count),
    decreases count,
{
    if count > 0 {
        lemma_rules_agree(a, b, s, count - 1);
        let s1 = rules_draw(a, s, count - 1).0;
        let (t1, l) = number_draw(s1, a.maximum_selector_length as int);
        let (t6, f) = parts_draw(a, t1, 0);
        lemma_parts_text_agree(a, b, t6, 0, l + 1, f);
        let t2 = compound_draw(a, t1, 0, l + 1).0;
        lemma_selector_tail_agree(a, b, t2, l + 1, l + 1);
    }
}

/// The sheet does not depend on the tree's or the script's knobs: configurations that
/// agree on the sheet's knobs (the style seed and the rule count among them) draw the
/// same sheet.
pub proof fn lemma_sheet_ignores_dom(a: Config, b: Config)
    requires
        sheet_knobs_agree(a, b),
    ensures
        rules_draw(a, seed_state(a.style_seed as int), a.rule_count as int) == rules_draw(
            b,
            seed_state(b.style_seed as int),
            b.rule_count as int,
        ),
{
    lemma_rules_agree(a, b, seed_state(a.style_seed as int), a.rule_count as int);
}

/// A pseudo-class chance over an empty list of pseudo-classes costs one draw and nothing
/// more: the compound is the one drawn with that chance at zero, one draw later.
pub proof fn lemma_pseudo_chance_without_classes(cfg: Config, s: int, index: int, length: int)
    requires
        cfg.pseudo_classes@.len() == 0,
        cfg.pseudo_class_chance != 0,
    ensures
        compound_draw(cfg, s, index, length) == compound_draw(
            Config { pseudo_class_chance: 0, ..cfg },
            lcg_step(s),
            index,
            length,
        ),
{
    let cfg0 = Config { pseudo_class_chance: 0, ..cfg };
    let (s6, f) = parts_draw(cfg, s, index);
    assert(parts_draw(cfg0, lcg_step(s), index) == (s6, f));
    lemma_parts_text_agree(cfg, cfg0, s6, index, length, f);
}

/// The declaration of a rule: a random `rgb()` background.
pub fn make_declaration(rng: &mut Random) -> (r: String)
    ensures
        final(rng)@ == lcg_step(lcg_step(lcg_step(old(rng)@))),
        r@ == declaration_text(
            lcg_step(old(rng)@) % 256,
            lcg_step(lcg_step(old(rng)@)) % 256,
            lcg_step(lcg_step(lcg_step(old(rng)@))) % 256,
        ),
{
    let a = rng.next() % 256;
    let b = rng.next() % 256;
    let c = rng.next() % 256;
    let mut s = String::new();
    push_str(&mut s, "background-color: rgb(");
    push_int(&mut s, a as i64);
    push_str(&mut s, ", ");
    push_int(&mut s, b as i64);
    push_str(&mut s, ", ");
    push_int(&mut s, c as i64);
    push_str(&mut s, ");");
    proof {
        assert(s@ =~= declaration_text(a as int, b as int, c as int));
    }
    s
}

/// An attribute selector: `[name]`, or `[name<op>"value"]` for a non-empty operator.
pub fn random_attribute_selector(cfg: &Config, rng: &mut Random) -> (r: String)
    requires
        cfg.attribute_operators@.len() > 0,
        cfg.attribute_operators@.len() <= i32::MAX,
    ensures
        (final(rng)@, r@) == attr_selector_draw(*cfg, old(rng)@),
        config_plain(*cfg) ==> line_text(r@),
        r@.len() >= 2,
        r@[0] == '[',
{
    let name = random_attribute_name(cfg, rng);
    let k = rng.number_square_weighted_to_low(cfg.attribute_operators.len() as i32);
    let op = &cfg.attribute_operators[k as usize];
    let mut s = String::new();
    push_char(&mut s, '[');
    push_str(&mut s, name.as_str());
    if op.as_str().unicode_len() == 0 {
        push_char(&mut s, ']');
        proof {
            assert(s@ =~= seq!['['] + name@ + seq![']']);
            lemma_word_line(name@);
            assert(line_text(s@));
        }
        return s;
    }
    let value = random_attribute_value(cfg, rng);
    push_str(&mut s, op.as_str());
    push_char(&mut s, '"');
    push_str(&mut s, value.as_str());
    push_char(&mut s, '"');
    push_char(&mut s, ']');
    proof {
        assert(s@ =~= seq!['['] + name@ + op@ + seq!['"'] + value@ + seq!['"', ']']);
        if config_plain(*cfg) {
            lemma_word_line(name@);
            lemma_word_line(value@);
            assert(line_text(op@));
            assert(line_text(s@)) by {
                assert forall|i: int| 0 <= i < s@.len() implies crate::names::line_char(
                    #[trigger] s@[i],
                ) by {
                    let a = name@.len() + 1;
                    let b = a + op@.len();
                    if 1 <= i < a {
                        assert(s@[i] == name@[i - 1]);
                    } else if a <= i < b {
                        assert(s@[i] == op@[i - a]);
                    } else if b + 1 <= i < b + 1 + value@.len() {
                        assert(s@[i] == value@[i - b - 1]);
                    }
                }
            }
        }
    }
    s
}

/// A pseudo-class; `empty` is drawn again unless the compound is the selector's subject.
pub fn random_pseudo_class(cfg: &Config, rng: &mut Random, is_last: bool) -> (r: String)
    requires
        cfg.pseudo_classes@.len() > 0,
        cfg.pseudo_classes@.len() <= i32::MAX,
    ensures
        (final(rng)@, r@) == pseudo_draw(*cfg, old(rng)@, is_last, 0),
        exists|k: int| 0 <= k < cfg.pseudo_classes@.len() && r@ == cfg.pseudo_classes@[k]@,
        !is_last && r@ == "empty"@ ==> empty_draws(*cfg, old(rng)@, (u64::MAX + 1) as nat),
{
    let n = cfg.pseudo_classes.len() as i32;
    let mut tries: u64 = 0;
    loop
        invariant
            n as int == cfg.pseudo_classes@.len(),
            n > 0,
            pseudo_draw(*cfg, rng@, is_last, tries as int) == pseudo_draw(*cfg, old(rng)@, is_last, 0),
        decreases u64::MAX - tries,
    {
        let ghost s = rng@;
        let k = rng.number(n) as usize;
        let pc = &cfg.pseudo_classes[k];
        let chars = chars_of(pc.as_str());
        if is_last || !eq_str(chars.as_slice(), "empty") || tries == u64::MAX {
            let r = pc.clone();
            proof {
                assert(pseudo_draw(*cfg, s, is_last, tries as int) == (rng@, r@));
                if !is_last {
                    lemma_pseudo_not_empty(*cfg, old(rng)@);
                }
            }
            return r;
        }
        tries = tries + 1;
    }
}

/// The rolls of compound `index`: which parts it has.
fn draw_parts(cfg: &Config, rng: &mut Random, index: i32) -> (f: CompoundParts)
    ensures
        (final(rng)@, f) == parts_draw(*cfg, old(rng)@, index as int),
        f.id ==> index == 0,
        f.pseudo ==> cfg.pseudo_classes@.len() > 0,
        f.star ==> !f.id && !f.element && !f.attribute && index != 0,
        !f.id && !f.element && !f.attribute && !f.star ==> f.class,
{
    let ghost s0 = rng@;
    let is_first = index == 0;
    let pc = rng.chance(cfg.pseudo_class_chance);
    let ghost s1 = rng@;
    let use_pseudo_class = pc && cfg.pseudo_classes.len() > 0;
    let use_id = is_first && rng.chance(cfg.id_chance);
    let ghost s2 = rng@;
    let use_element = !use_id && (use_pseudo_class || rng.chance(cfg.element_chance));
    let ghost s3 = rng@;
    let use_attribute = !use_id && rng.chance(cfg.attribute_chance);
    let ghost s4 = rng@;
    let use_id_element_or_attribute = use_id || use_element || use_attribute;
    let use_star = !use_id_element_or_attribute && !is_first && rng.chance(cfg.star_chance);
    let ghost s5 = rng@;
    let use_class = !use_id && !use_star && (!use_id_element_or_attribute || rng.chance(
        cfg.class_chance,
    ));
    let ghost s6 = rng@;
    proof {
        assert(chance_draw(s0, cfg.pseudo_class_chance as int) == (s1, pc));
        if is_first {
            assert(chance_draw(s1, cfg.id_chance as int) == (s2, use_id));
        } else {
            assert(s2 == s1 && !use_id);
        }
        if !use_id && !use_pseudo_class {
            assert(chance_draw(s2, cfg.element_chance as int) == (s3, use_element));
        } else {
            assert(s3 == s2);
        }
        if !use_id {
            assert(chance_draw(s3, cfg.attribute_chance as int) == (s4, use_attribute));
        } else {
            assert(s4 == s3 && !use_attribute);
        }
        if !use_id_element_or_attribute && !is_first {
            assert(chance_draw(s4, cfg.star_chance as int) == (s5, use_star));
        } else {
            assert(s5 == s4 && !use_star);
        }
        if !use_id && !use_star && use_id_element_or_attribute {
            assert(chance_draw(s5, cfg.class_chance as int) == (s6, use_class));
        } else {
            assert(s6 == s5);
        }
    }
    CompoundParts {
        pseudo: use_pseudo_class,
        id: use_id,
        element: use_element,
        attribute: use_attribute,
        star: use_star,
        class: use_class,
    }
}

/// One compound of a selector: some of an element, id, star, classes, attribute and
/// pseudo-class, drawn as StyleBench draws them.
#[verifier::rlimit(60)]
pub fn make_compound_selector(cfg: &Config, rng: &mut Random, index: i32, length: i32) -> (r:
    String)
    requires
        0 <= index < length,
        compound_config_ok(*cfg),
    ensures
        (final(rng)@, r@) == compound_draw(*cfg, old(rng)@, index as int, length as int),
        r@.len() >= 1,
        index == 0 ==> selector_start(r@),
        config_plain(*cfg) ==> line_text(r@),
{
    let ghost s0 = rng@;
    let is_first = index == 0;
    let is_last = index == length - 1;
    let parts = draw_parts(cfg, rng, index);
    let ghost s6 = rng@;
    let use_pseudo_class = parts.pseudo;
    let use_id = parts.id;
    let use_element = parts.element;
    let use_attribute = parts.attribute;
    let use_star = parts.star;
    let use_class = parts.class;
    let mut result = String::new();
    proof {
        lemma_name_literals();
    }
    if use_element {
        let e = random_element_name(cfg, rng);
        push_str(&mut result, e.as_str());
        proof {
            assert(result@ == e@);
            lemma_word_line(e@);
        }
    }
    proof {
        if !use_element {
            assert(result@ =~= Seq::<char>::empty());
        }
    }
    let ghost s7 = rng@;
    if use_star {
        result = String::from_str("*");
        proof {
            reveal_strlit("*");
            assert("*"@ =~= seq!['*']);
        }
    }
    let ghost t2 = result@;
    if use_id {
        push_char(&mut result, '#');
        let id = random_id(cfg, rng);
        push_str(&mut result, id.as_str());
        proof {
            assert(result@ =~= t2 + seq!['#'] + id@);
            assert(result@ =~= seq!['#'] + id@);
            assert(id@[0] == 'i');
            lemma_word_line(id@);
            lemma_line_concat(seq!['#'], id@);
        }
    }
    let ghost s8 = rng@;
    let ghost start = result@;
    proof {
        if index == 0 && (use_element || use_id) {
            assert(selector_start(start));
        }
    }
    if use_class {
        let class_count = rng.number_square_weighted_to_low(2) + 1;
        let ghost s9 = rng@;
        proof {
            assert(weighted_draw(s8, 2) == (s9, class_count - 1));
        }
        let mut i: i32 = 0;
        while i < class_count
            invariant
                0 <= i <= class_count,
                result@.len() >= start.len(),
                forall|j: int| 0 <= j < start.len() ==> result@[j] == start[j],
                start.len() == 0 && i > 0 ==> selector_start(result@),
                i == 0 ==> result@ == start,
                line_text(start) ==> line_text(result@),
                i > 0 ==> result@.len() >= 1,
                0 <= index < length,
                (rng@, result@) == ({
                    let (t, cs) = class_selectors_draw(*cfg, s9, index as int, length as int, i as int);
                    (t, start + cs)
                }),
            decreases class_count - i,
        {
            let ghost before = result@;
            push_char(&mut result, '.');
            let c = random_class_name_from_range(cfg, rng, index, length);
            push_str(&mut result, c.as_str());
            proof {
                assert(result@ =~= before + seq!['.'] + c@);
                let cs0 = class_selectors_draw(*cfg, s9, index as int, length as int, i as int).1;
                assert(before == start + cs0);
                assert(start + cs0 + seq!['.'] + c@ =~= start + (cs0 + seq!['.'] + c@));
                lemma_word_line(c@);
                if line_text(before) {
                    lemma_line_concat(before, seq!['.']);
                    lemma_line_concat(before + seq!['.'], c@);
                }
                assert forall|j: int| 0 <= j < start.len() implies result@[j] == start[j] by {
                    assert(result@[j] == before[j]);
                }
                if start.len() == 0 && before.len() == 0 {
                    assert(result@[0] == '.');
                }
                if start.len() == 0 && before.len() > 0 {
                    assert(result@[0] == before[0]);
                    assert(result@[1] == before[1]);
                }
            }
            i = i + 1;
        }
    }
    let ghost s10 = rng@;
    let ghost t4 = result@;
    if use_attribute {
        let ghost before = result@;
        let a = random_attribute_selector(cfg, rng);
        push_str(&mut result, a.as_str());
        proof {
            if before.len() == 0 {
                assert(result@ =~= a@);
            } else {
                assert(result@[0] == before[0]);
                assert(before.len() >= 2 ==> result@[1] == before[1]);
            }
            if config_plain(*cfg) && line_text(before) {
                lemma_line_concat(before, a@);
            }
        }
    }
    let ghost s11 = rng@;
    let ghost t5 = result@;
    if use_pseudo_class {
        let ghost before = result@;
        push_char(&mut result, ':');
        let p = random_pseudo_class(cfg, rng, is_last);
        push_str(&mut result, p.as_str());
        proof {
            assert(result@ =~= before + seq![':'] + p@);
            assert(result@[0] == before[0]);
            assert(before.len() >= 2 ==> result@[1] == before[1]);
            if config_plain(*cfg) && line_text(before) {
                let k = choose|k: int| 0 <= k < cfg.pseudo_classes@.len() && p@ == cfg.pseudo_classes@[k]@;
                assert(line_text(cfg.pseudo_classes@[k]@));
                lemma_line_concat(before, seq![':']);
                lemma_line_concat(before + seq![':'], p@);
            }
        }
    }
    proof {
        if !use_class {
            assert(s10 == s8 && t4 == start);
        }
        if !use_attribute {
            assert(s11 == s10 && t5 == t4);
        }
        assert(parts_draw(*cfg, s0, index as int) == (s6, parts));
    }
    result
}

/// A selector: one to `maximum_selector_length` compounds joined by combinators.
pub fn make_selector(cfg: &Config, rng: &mut Random) -> (r: String)
    requires
        compound_config_ok(*cfg),
        selector_draw_ok(*cfg, old(rng)@),
    ensures
        (final(rng)@, r@) == selector_draw(*cfg, old(rng)@),
        selector_start(r@),
        config_plain(*cfg) ==> line_text(r@),
{
    let ghost s0 = rng@;
    let length = rng.number(cfg.maximum_selector_length) + 1;
    let ghost s1 = rng@;
    let mut result = make_compound_selector(cfg, rng, 0, length);
    let ghost s2 = rng@;
    let ghost first = result@;
    proof {
        assert(number_draw(s0, cfg.maximum_selector_length as int) == (s1, length - 1));
        assert(first + selector_tail_draw(*cfg, s2, length as int, 1).1 =~= first);
    }
    let mut i: i32 = 1;
    while i < length
        invariant
            1 <= i <= length,
            length > 1 ==> cfg.combinators@.len() > 0,
            compound_config_ok(*cfg),
            selector_start(first),
            result@.len() >= first.len(),
            forall|j: int| 0 <= j < first.len() ==> result@[j] == first[j],
            config_plain(*cfg) ==> line_text(result@),
            (rng@, result@) == ({
                let (t, tail) = selector_tail_draw(*cfg, s2, length as int, i as int);
                (t, first + tail)
            }),
        decreases length - i,
    {
        let ghost before = result@;
        let ghost sb = rng@;
        let k = rng.number(cfg.combinators.len() as i32);
        let combinator = &cfg.combinators[k as usize];
        let cs = chars_of(combinator.as_str());
        if !eq_str(cs.as_slice(), " ") {
            push_char(&mut result, ' ');
            push_str(&mut result, combinator.as_str());
        }
        push_char(&mut result, ' ');
        proof {
            reveal_strlit(" ");
            assert(" "@ =~= seq![' ']);
            assert(result@ =~= before + joiner(combinator@));
        }
        let c = make_compound_selector(cfg, rng, i, length);
        push_str(&mut result, c.as_str());
        proof {
            let tail0 = selector_tail_draw(*cfg, s2, length as int, i as int).1;
            assert(result@ =~= first + (tail0 + joiner(combinator@) + c@));
        }
        proof {
            assert forall|j: int| 0 <= j < first.len() implies result@[j] == first[j] by {
                assert(result@[j] == before[j]);
            }
            if config_plain(*cfg) {
                assert(line_text(combinator@));
                let mid = result@.subrange(before.len() as int, result@.len() - c@.len());
                assert(result@ =~= before + mid + c@);
                assert(line_text(mid)) by {
                    assert forall|j: int| 0 <= j < mid.len() implies crate::names::line_char(
                        #[trigger] mid[j],
                    ) by {
                        if !(cs@ == " "@) && 1 <= j < 1 + combinator@.len() {
                            assert(mid[j] == combinator@[j - 1]);
                        }
                    }
                }
                lemma_line_concat(before, mid);
                lemma_line_concat(before + mid, c@);
            }
        }
        i = i + 1;
    }
    proof {
        assert(result@[0] == first[0]);
        assert(result@[1] == first[1]);
    }
    result
}

/// A rule: a selector and a random background color.
pub fn make_rule(cfg: &Config, rng: &mut Random) -> (r: String)
    requires
        compound_config_ok(*cfg),
        selector_draw_ok(*cfg, old(rng)@),
    ensures
        (final(rng)@, r@) == rule_draw(*cfg, old(rng)@),
        is_rule_line(r@),
        selector_start(r@),
        config_plain(*cfg) ==> line_text(r@),
{
    let selector = make_selector(cfg, rng);
    let ghost s0 = rng@;
    let declaration = make_declaration(rng);
    let mut s = String::new();
    push_str(&mut s, selector.as_str());
    push_str(&mut s, " { ");
    push_str(&mut s, declaration.as_str());
    push_str(&mut s, " }");
    proof {
        let a = lcg_step(s0) % 256;
        let b = lcg_step(lcg_step(s0)) % 256;
        let c = lcg_step(lcg_step(lcg_step(s0))) % 256;
        assert(s@ =~= rule_text(selector@, declaration_text(a, b, c)));
        assert(is_rule_line(s@));
        assert(s@[0] == selector@[0]);
        assert(s@[1] == selector@[1]);
        if config_plain(*cfg) {
            lemma_rule_line_text(selector@, a, b, c);
        }
    }
    s
}

proof fn lemma_rule_line_text(sel: Seq<char>, a: int, b: int, c: int)
    requires
        line_text(sel),
        0 <= a,
        0 <= b,
        0 <= c,
    ensures
        line_text(rule_text(sel, declaration_text(a, b, c))),
{
    reveal_strlit("background-color: rgb(");
    reveal_strlit(", ");
    reveal_strlit(");");
    reveal_strlit(" { ");
    reveal_strlit(" }");
    lemma_decimal_word(a);
    lemma_decimal_word(b);
    lemma_decimal_word(c);
    lemma_word_line(decimal(a));
    lemma_word_line(decimal(b));
    lemma_word_line(decimal(c));
    let p1 = "background-color: rgb("@;
    let p2 = ", "@;
    let p3 = ");"@;
    let p4 = " { "@;
    let p5 = " }"@;
    assert(line_text(p1)) by {
        assert forall|i: int| 0 <= i < p1.len() implies crate::names::line_char(#[trigger] p1[i]) by {
        }
    }
    assert(line_text(p2));
    assert(line_text(p3));
    assert(line_text(p4));
    assert(line_text(p5));
    lemma_line_concat(p1, decimal(a));
    lemma_line_concat(p1 + decimal(a), p2);
    lemma_line_concat(p1 + decimal(a) + p2, decimal(b));
    lemma_line_concat(p1 + decimal(a) + p2 + decimal(b), p2);
    lemma_line_concat(p1 + decimal(a) + p2 + decimal(b) + p2, decimal(c));
    lemma_line_concat(p1 + decimal(a) + p2 + decimal(b) + p2 + decimal(c), p3);
    let d = declaration_text(a, b, c);
    lemma_line_concat(sel, p4);
    lemma_line_concat(sel + p4, d);
    lemma_line_concat(sel + p4 + d, p5);
}

/// A rule line is neither a comment nor a section marker, and, when plain, a plain line.
proof fn lemma_rule_line_safe(l: Seq<char>)
    requires
        selector_start(l),
        is_rule_line(l),
        line_text(l),
    ensures
        body_line(l),
        plain_line(l),
{
    reveal_strlit("# ");
    reveal_strlit("---base---");
    reveal_strlit("---css---");
    reveal_strlit("---tree---");
    reveal_strlit("---mut---");
    assert("# "@ =~= seq!['#', ' ']);
    if has_prefix(l, "# "@) {
        assert(l.take(2)[0] == l[0]);
        assert(l.take(2)[1] == l[1]);
        assert(l[0] == '#');
        assert(l[1] == ' ');
    }
    assert(l != "---base---"@ && l != "---css---"@ && l != "---tree---"@ && l != "---mut---"@) by {
        assert("---base---"@[0] == '-');
        assert("---css---"@[0] == '-');
        assert("---tree---"@[0] == '-');
        assert("---mut---"@[0] == '-');
    }
    assert(!l.contains('\n')) by {
        if l.contains('\n') {
            let k = choose|k: int| 0 <= k < l.len() && l[k] == '\n';
            assert(crate::names::line_char(l[k]));
        }
    }
    let (sel, a, b, c) = choose|sel: Seq<char>, a: int, b: int, c: int|
        {
            &&& 0 <= a < 256
            &&& 0 <= b < 256
            &&& 0 <= c < 256
            &&& selector_start(sel)
            &&& #[trigger] rule_text(sel, declaration_text(a, b, c)) == l
        };
    reveal_strlit(" }");
    assert(" }"@ =~= seq![' ', '}']);
    assert(l.last() == '}');
    assert(crate::names::line_char(l[l.len() - 1]));
}

/// The generated sheet: `size` rules, one per line.
pub fn make_stylesheet(cfg: &Config, rng: &mut Random, size: i32) -> (css: String)
    requires
        compound_config_ok(*cfg),
        sheet_draw_ok(*cfg, old(rng)@, size as int),
    ensures
        final(rng)@ == rules_draw(*cfg, old(rng)@, size as int).0,
        css@ == unlines(rules_draw(*cfg, old(rng)@, size as int).1),
        exists|rules: Seq<Seq<char>>|
            {
                &&& #[trigger] unlines(rules) == css@
                &&& rules.len() == if size > 0 {
                    size as int
                } else {
                    0
                }
                &&& forall|i: int|
                    0 <= i < rules.len() ==> is_rule_line(#[trigger] rules[i]) && selector_start(
                        rules[i],
                    ) && (config_plain(*cfg) ==> line_text(rules[i]))
            },
        config_plain(*cfg) ==> sheet_safe(crate::format::with_final_newline(css@)),
        config_plain(*cfg) ==> lines_of(css@).len() == if size > 0 {
            size as int
        } else {
            0
        },
{
    let mut css = String::new();
    let ghost mut rules: Seq<Seq<char>> = Seq::empty();
    let mut i: i32 = 0;
    let n: i32 = if size > 0 {
        size
    } else {
        0
    };
    while i < n
        invariant
            0 <= i <= n,
            n == 0 || n == size,
            compound_config_ok(*cfg),
            sheet_draw_ok(*cfg, old(rng)@, size as int),
            rules.len() == i,
            css@ == unlines(rules),
            (rng@, rules) == rules_draw(*cfg, old(rng)@, i as int),
            forall|j: int|
                0 <= j < rules.len() ==> is_rule_line(#[trigger] rules[j]) && selector_start(
                    rules[j],
                ) && (config_plain(*cfg) ==> line_text(rules[j])),
        decreases n - i,
    {
        proof {
            assert(selector_draw_ok(*cfg, rules_draw(*cfg, old(rng)@, i as int).0));
        }
        let r = make_rule(cfg, rng);
        push_str(&mut css, r.as_str());
        push_char(&mut css, '\n');
        proof {
            let old_rules = rules;
            rules = rules.push(r@);
            assert(rules.drop_last() == old_rules);
            assert(css@ =~= unlines(rules));
        }
        i = i + 1;
    }
    proof {
        if config_plain(*cfg) {
            lemma_sheet_of_rules(rules, *cfg);
        }
    }
    css
}

proof fn lemma_sheet_of_rules(rules: Seq<Seq<char>>, cfg: Config)
    requires
        config_plain(cfg),
        forall|j: int|
            0 <= j < rules.len() ==> is_rule_line(#[trigger] rules[j]) && selector_start(rules[j])
                && (config_plain(cfg) ==> line_text(rules[j])),
    ensures
        sheet_safe(crate::format::with_final_newline(unlines(rules))),
        lines_of(unlines(rules)).len() == rules.len(),
{
    assert forall|j: int| 0 <= j < rules.len() implies plain_line(#[trigger] rules[j]) && body_line(
        rules[j],
    ) by {
        lemma_rule_line_safe(rules[j]);
    }
    lemma_lines_unlines(rules);
    let s = unlines(rules);
    if rules.len() == 0 {
        let one = seq![Seq::<char>::empty()];
        assert(unlines(one) =~= seq!['\n']) by {
            assert(one.drop_last() =~= Seq::<Seq<char>>::empty());
            assert(unlines(one.drop_last()) == Seq::<char>::empty());
            assert(one.last() == Seq::<char>::empty());
        }
        assert(crate::format::with_final_newline(s) =~= seq!['\n']);
        reveal_strlit("# ");
        reveal_strlit("---base---");
        reveal_strlit("---css---");
        reveal_strlit("---tree---");
        reveal_strlit("---mut---");
        assert(body_line(Seq::<char>::empty()));
        assert(plain_line(Seq::<char>::empty()));
        lemma_lines_unlines(one);
    } else {
        assert(s.last() == '\n');
        assert(crate::format::with_final_newline(s) == s);
    }
}

} // verus!
