use vstd::prelude::*;
use crate::markup::{Token, attrs_markup, escaped};
use crate::text::occurs_in;
use crate::writer::markup_of;
use crate::reader::{
    Frame, ReadState, attr_entries, close_element, element_tree, initial_state, put_all, read_run,
    read_tokens,
};
use crate::text::{lemma_trimmed, trimmed};
use crate::value::{Tree, key_index, lemma_key_index, put, unique_keys};
use crate::writer::{
    anonymous_events, attr_pairs, child_events, children_key, is_attr_key, is_child_key,
    root_tag, text_events, text_key, tree_events,
};
use crate::value::find;

verus! {

broadcast use vstd::seq::group_seq_axioms;

/// The values that survive being written as markup and read back: objects
/// with unique keys whose `@`-keys hold strings, whose `$text` (if any) is a
/// non-empty string without surrounding white space, and whose other keys
/// are element names holding such objects. Lists, scalars, null, `$children`
/// and repeated tags do not survive.
pub open spec fn round_trips(t: Tree) -> bool
    decreases t,
{
    match t {
        Tree::Object(es) => unique_keys(es) && forall|i: int|
            #![trigger es[i]]
            0 <= i < es.len() ==> {
                ||| is_attr_key(es[i].0) && es[i].1 is Str
                ||| es[i].0 == text_key() && (es[i].1 matches Tree::Str(s) && s.len() > 0 && trimmed(s) == s)
                ||| is_child_key(es[i].0) && round_trips(es[i].1)
            },
        _ => false,
    }
}

/// The attribute entries, in order.
pub open spec fn attr_part(es: Seq<(Seq<char>, Tree)>) -> Seq<(Seq<char>, Tree)>
    decreases es.len(),
{
    if es.len() == 0 {
        Seq::empty()
    } else if is_attr_key(es[0].0) {
        seq![es[0]] + attr_part(es.drop_first())
    } else {
        attr_part(es.drop_first())
    }
}

/// The `$text` entries, in order.
pub open spec fn text_part(es: Seq<(Seq<char>, Tree)>) -> Seq<(Seq<char>, Tree)>
    decreases es.len(),
{
    if es.len() == 0 {
        Seq::empty()
    } else if es[0].0 == text_key() {
        seq![es[0]] + text_part(es.drop_first())
    } else {
        text_part(es.drop_first())
    }
}

/// The element entries, in order, each in canonical order itself.
pub open spec fn child_part(es: Seq<(Seq<char>, Tree)>) -> Seq<(Seq<char>, Tree)>
    decreases es,
{
    if es.len() == 0 {
        Seq::empty()
    } else if is_child_key(es[0].0) {
        seq![(es[0].0, canonical(es[0].1))] + child_part(es.drop_first())
    } else {
        child_part(es.drop_first())
    }
}

/// The same value with each object's entries in the order a reader
/// produces them: attributes, then text, then elements. Entry order carries
/// no meaning, so this is the same mapping from keys to values.
pub open spec fn canonical(t: Tree) -> Tree
    decreases t,
{
    match t {
        Tree::Object(es) => Tree::Object(attr_part(es) + text_part(es) + child_part(es)),
        _ => t,
    }
}

/// Some entry of `es` has key `k`.
pub open spec fn has_key(es: Seq<(Seq<char>, Tree)>, k: Seq<char>) -> bool {
    exists|j: int| 0 <= j < es.len() && (#[trigger] es[j]).0 == k
}

proof fn lemma_put_fresh(es: Seq<(Seq<char>, Tree)>, k: Seq<char>, v: Tree)
    requires
        !has_key(es, k),
    ensures
        put(es, k, v) == es.push((k, v)),
{
    lemma_key_index(es, k);
    if key_index(es, k) >= 0 {
        assert(es[key_index(es, k)].0 == k);
    }
}

/// Attribute pairs as the `@`-entries a reader makes of them.
pub open spec fn at_entries(ps: Seq<(Seq<char>, Seq<char>)>) -> Seq<(Seq<char>, Tree)> {
    ps.map_values(|p: (Seq<char>, Seq<char>)| (seq!['@'] + p.0, Tree::Str(p.1)))
}

proof fn lemma_attr_entries_fresh(ps: Seq<(Seq<char>, Seq<char>)>)
    requires
        unique_keys(at_entries(ps)),
    ensures
        attr_entries(ps) == at_entries(ps),
    decreases ps.len(),
{
    if ps.len() > 0 {
        let d = ps.drop_last();
        assert(at_entries(d) =~= at_entries(ps).drop_last());
        lemma_attr_entries_fresh(d);
        let k = seq!['@'] + ps.last().0;
        assert(!has_key(at_entries(d), k)) by {
            if has_key(at_entries(d), k) {
                let j = choose|j: int| 0 <= j < at_entries(d).len() && (#[trigger] at_entries(d)[j]).0 == k;
                assert(at_entries(ps)[j].0 == at_entries(ps)[ps.len() - 1].0);
            }
        }
        lemma_put_fresh(at_entries(d), k, Tree::Str(ps.last().1));
        assert(at_entries(d).push((k, Tree::Str(ps.last().1))) =~= at_entries(ps));
    }
}

/// Every `@`-entry holds a string.
pub open spec fn attrs_are_strings(es: Seq<(Seq<char>, Tree)>) -> bool {
    forall|i: int| 0 <= i < es.len() && is_attr_key(#[trigger] es[i].0) ==> es[i].1 is Str
}

proof fn lemma_attr_pairs(es: Seq<(Seq<char>, Tree)>)
    requires
        attrs_are_strings(es),
    ensures
        at_entries(attr_pairs(es)) == attr_part(es),
    decreases es.len(),
{
    if es.len() > 0 {
        let d = es.drop_first();
        assert forall|i: int| 0 <= i < d.len() && is_attr_key(#[trigger] d[i].0) implies d[i].1 is Str by {
            assert(d[i] == es[i + 1]);
        }
        lemma_attr_pairs(d);
        if is_attr_key(es[0].0) {
            assert(es[0].1 is Str);
            let v = es[0].1->Str_0;
            let k = es[0].0;
            assert(seq!['@'] + k.drop_first() =~= k);
            assert(at_entries(seq![(k.drop_first(), v)] + attr_pairs(d)) =~= seq![(seq!['@'] + k.drop_first(), Tree::Str(v))] + at_entries(attr_pairs(d)));
        }
    } else {
        assert(at_entries(Seq::empty()) =~= Seq::empty());
    }
}

/// Keys of `attr_part`, `text_part` and `child_part` are keys of the whole,
/// each of its own kind.
proof fn lemma_parts_keys(es: Seq<(Seq<char>, Tree)>)
    ensures
        forall|i: int| 0 <= i < attr_part(es).len() ==> has_key(es, #[trigger] attr_part(es)[i].0) && is_attr_key(attr_part(es)[i].0),
        forall|i: int| 0 <= i < attr_part(es).len() ==> exists|j: int| 0 <= j < es.len() && #[trigger] attr_part(es)[i] == es[j],
        forall|i: int| 0 <= i < text_part(es).len() ==> exists|j: int| 0 <= j < es.len() && #[trigger] text_part(es)[i] == es[j],
        forall|i: int| 0 <= i < text_part(es).len() ==> (#[trigger] text_part(es)[i]).0 == text_key(),
        forall|i: int| 0 <= i < child_part(es).len() ==> has_key(es, #[trigger] child_part(es)[i].0) && is_child_key(child_part(es)[i].0),
    decreases es.len(),
{
    if es.len() > 0 {
        let d = es.drop_first();
        lemma_parts_keys(d);
        assert forall|k: Seq<char>| has_key(d, k) implies has_key(es, k) by {
            let j = choose|j: int| 0 <= j < d.len() && (#[trigger] d[j]).0 == k;
            assert(es[j + 1] == d[j]);
        }
        assert(has_key(es, es[0].0)) by {
            assert(es[0].0 == es[0].0);
        }
        assert forall|i: int| 0 <= i < attr_part(es).len() implies exists|j: int| 0 <= j < es.len() && #[trigger] attr_part(es)[i] == es[j] by {
            if is_attr_key(es[0].0) && i == 0 {
                assert(attr_part(es)[i] == es[0]);
            } else {
                let i2 = if is_attr_key(es[0].0) { i - 1 } else { i };
                assert(attr_part(es)[i] == attr_part(d)[i2]);
                let j = choose|j: int| 0 <= j < d.len() && #[trigger] attr_part(d)[i2] == d[j];
                assert(es[j + 1] == d[j]);
            }
        }
        assert forall|i: int| 0 <= i < child_part(es).len() implies has_key(es, #[trigger] child_part(es)[i].0) && is_child_key(child_part(es)[i].0) by {
            if is_child_key(es[0].0) && i == 0 {
                assert(child_part(es)[i].0 == es[0].0);
            } else {
                let i2 = if is_child_key(es[0].0) { i - 1 } else { i };
                assert(child_part(es)[i] == child_part(d)[i2]);
                assert(has_key(d, child_part(d)[i2].0));
            }
        }
        assert forall|i: int| 0 <= i < text_part(es).len() implies exists|j: int| 0 <= j < es.len() && #[trigger] text_part(es)[i] == es[j] by {
            if es[0].0 == text_key() && i == 0 {
                assert(text_part(es)[i] == es[0]);
            } else {
                let i2 = if es[0].0 == text_key() { i - 1 } else { i };
                assert(text_part(es)[i] == text_part(d)[i2]);
                let j = choose|j: int| 0 <= j < d.len() && #[trigger] text_part(d)[i2] == d[j];
                assert(es[j + 1] == d[j]);
            }
        }
    }
}

proof fn lemma_unique_drop_first(es: Seq<(Seq<char>, Tree)>)
    requires
        unique_keys(es),
        es.len() > 0,
    ensures
        unique_keys(es.drop_first()),
        !has_key(es.drop_first(), es[0].0),
{
    let d = es.drop_first();
    assert forall|i: int, j: int| 0 <= i < j < d.len() implies #[trigger] d[i].0 != #[trigger] d[j].0 by {
        assert(d[i] == es[i + 1] && d[j] == es[j + 1]);
    }
    if has_key(d, es[0].0) {
        let j = choose|j: int| 0 <= j < d.len() && (#[trigger] d[j]).0 == es[0].0;
        assert(d[j] == es[j + 1]);
    }
}

proof fn lemma_cons_unique(e: (Seq<char>, Tree), rest: Seq<(Seq<char>, Tree)>)
    requires
        unique_keys(rest),
        !has_key(rest, e.0),
    ensures
        unique_keys(seq![e] + rest),
{
    let s = seq![e] + rest;
    assert forall|i: int, j: int| 0 <= i < j < s.len() implies #[trigger] s[i].0 != #[trigger] s[j].0 by {
        assert(s[j] == rest[j - 1]);
        if i == 0 {
            if s[j].0 == e.0 {
                assert(rest[j - 1].0 == e.0);
            }
        } else {
            assert(s[i] == rest[i - 1]);
        }
    }
}

proof fn lemma_parts_unique(es: Seq<(Seq<char>, Tree)>)
    requires
        unique_keys(es),
    ensures
        unique_keys(attr_part(es)),
        unique_keys(child_part(es)),
        text_part(es).len() <= 1,
    decreases es.len(),
{
    if es.len() > 0 {
        let d = es.drop_first();
        lemma_unique_drop_first(es);
        lemma_parts_unique(d);
        lemma_parts_keys(d);
        if is_attr_key(es[0].0) {
            assert(!has_key(attr_part(d), es[0].0)) by {
                if has_key(attr_part(d), es[0].0) {
                    let j = choose|j: int| 0 <= j < attr_part(d).len() && (#[trigger] attr_part(d)[j]).0 == es[0].0;
                    assert(has_key(d, attr_part(d)[j].0));
                }
            }
            lemma_cons_unique(es[0], attr_part(d));
        }
        if is_child_key(es[0].0) {
            assert(!has_key(child_part(d), es[0].0)) by {
                if has_key(child_part(d), es[0].0) {
                    let j = choose|j: int| 0 <= j < child_part(d).len() && (#[trigger] child_part(d)[j]).0 == es[0].0;
                    assert(has_key(d, child_part(d)[j].0));
                }
            }
            lemma_cons_unique((es[0].0, canonical(es[0].1)), child_part(d));
        }
        if es[0].0 == text_key() {
            assert(text_part(d).len() == 0) by {
                if text_part(d).len() > 0 {
                    let j = choose|j: int| 0 <= j < d.len() && #[trigger] text_part(d)[0] == d[j];
                    assert(text_part(d)[0].0 == text_key());
                    assert(has_key(d, es[0].0)) by {
                        assert(d[j].0 == es[0].0);
                    }
                }
            }
        }
    }
}

/// The text an element is written with: its `$text` string, or nothing.
pub open spec fn written_text(es: Seq<(Seq<char>, Tree)>) -> Seq<char> {
    if text_part(es).len() > 0 {
        match text_part(es)[0].1 {
            Tree::Str(s) => s,
            _ => Seq::empty(),
        }
    } else {
        Seq::empty()
    }
}

/// Every `$text` entry holds a string.
pub open spec fn text_is_string(es: Seq<(Seq<char>, Tree)>) -> bool {
    forall|i: int| 0 <= i < es.len() && (#[trigger] es[i]).0 == text_key() ==> es[i].1 is Str
}

proof fn lemma_text_events(es: Seq<(Seq<char>, Tree)>)
    requires
        text_is_string(es),
    ensures
        text_events(es) == (if text_part(es).len() > 0 {
            seq![Token::Text(written_text(es))]
        } else {
            Seq::<Token>::empty()
        }),
    decreases es.len(),
{
    if es.len() > 0 && es[0].0 != text_key() {
        let d = es.drop_first();
        assert forall|i: int| 0 <= i < d.len() && (#[trigger] d[i]).0 == text_key() implies d[i].1 is Str by {
            assert(d[i] == es[i + 1]);
        }
        lemma_text_events(d);
    }
}

/// No entry is `$children`.
pub open spec fn no_anonymous(es: Seq<(Seq<char>, Tree)>) -> bool {
    forall|i: int| 0 <= i < es.len() ==> (#[trigger] es[i]).0 != children_key()
}

proof fn lemma_no_anonymous_events(es: Seq<(Seq<char>, Tree)>)
    requires
        no_anonymous(es),
    ensures
        anonymous_events(es) == Seq::<Token>::empty(),
    decreases es.len(),
{
    if es.len() > 0 {
        let d = es.drop_first();
        assert forall|i: int| 0 <= i < d.len() implies (#[trigger] d[i]).0 != children_key() by {
            assert(d[i] == es[i + 1]);
        }
        lemma_no_anonymous_events(d);
    }
}

proof fn lemma_put_all_fresh(base: Seq<(Seq<char>, Tree)>, more: Seq<(Seq<char>, Tree)>)
    requires
        unique_keys(more),
        forall|i: int| 0 <= i < more.len() ==> !has_key(base, #[trigger] more[i].0),
    ensures
        put_all(base, more) == base + more,
    decreases more.len(),
{
    if more.len() > 0 {
        let d = more.drop_last();
        assert forall|i: int, j: int| 0 <= i < j < d.len() implies #[trigger] d[i].0 != #[trigger] d[j].0 by {
            assert(d[i] == more[i] && d[j] == more[j]);
        }
        assert forall|i: int| 0 <= i < d.len() implies !has_key(base, #[trigger] d[i].0) by {
            assert(d[i] == more[i]);
        }
        lemma_put_all_fresh(base, d);
        let k = more.last().0;
        assert(!has_key(base + d, k)) by {
            if has_key(base + d, k) {
                let j = choose|j: int| 0 <= j < (base + d).len() && (#[trigger] (base + d)[j]).0 == k;
                if j < base.len() {
                    assert((base + d)[j] == base[j]);
                    assert(has_key(base, more[more.len() - 1].0));
                } else {
                    assert((base + d)[j] == more[j - base.len()]);
                }
            }
        }
        lemma_put_fresh(base + d, k, more.last().1);
        assert((base + d).push(more.last()) =~= base + more);
    }
}

/// The element a reader holds for object `es` named `n` just before its
/// closing tag.
pub open spec fn frame_of(es: Seq<(Seq<char>, Tree)>, n: Seq<char>) -> Frame {
    Frame { name: n, attrs: attr_part(es), text: written_text(es), children: child_part(es) }
}

pub open spec fn set_top_children(st: ReadState, c: Seq<(Seq<char>, Tree)>) -> ReadState {
    ReadState { stack: st.stack.update(st.stack.len() - 1, Frame { children: c, ..st.stack.last() }), ..st }
}

proof fn lemma_round_trip_entries(es: Seq<(Seq<char>, Tree)>)
    requires
        round_trips(Tree::Object(es)),
    ensures
        unique_keys(es),
        attrs_are_strings(es),
        text_is_string(es),
        no_anonymous(es),
        forall|i: int| 0 <= i < es.len() && is_child_key(es[i].0) ==> round_trips(#[trigger] es[i].1),
        forall|i: int|
            0 <= i < es.len() && (#[trigger] es[i]).0 == text_key() ==> (es[i].1 matches Tree::Str(s) && s.len() > 0 && trimmed(s) == s),
{
    assert(text_key()[0] == '$');
    assert forall|i: int| 0 <= i < es.len() implies (#[trigger] es[i]).0 != children_key() by {
        assert(children_key()[0] == '$');
        assert(children_key().len() != text_key().len());
    }
    assert forall|i: int| 0 <= i < es.len() && (#[trigger] es[i]).0 == text_key() implies es[i].1 is Str by {
        assert(!is_attr_key(es[i].0) && !is_child_key(es[i].0));
    }
    assert forall|i: int| 0 <= i < es.len() && is_child_key(es[i].0) implies round_trips(#[trigger] es[i].1) by {
        assert(!is_attr_key(es[i].0));
        assert(es[i].0 != text_key());
    }
    assert forall|i: int|
        0 <= i < es.len() && (#[trigger] es[i]).0 == text_key() implies (es[i].1 matches Tree::Str(s) && s.len() > 0 && trimmed(s) == s) by {
        assert(!is_attr_key(es[i].0) && !is_child_key(es[i].0));
    }
}

/// What a reader makes of the element written for a value that round-trips.
proof fn lemma_element_tree(es: Seq<(Seq<char>, Tree)>, n: Seq<char>)
    requires
        round_trips(Tree::Object(es)),
    ensures
        element_tree(frame_of(es, n)) == canonical(Tree::Object(es)),
{
    lemma_round_trip_entries(es);
    lemma_parts_keys(es);
    lemma_parts_unique(es);
    let ap = attr_part(es);
    let tp = text_part(es);
    let cp = child_part(es);
    let f = frame_of(es, n);
    assert(text_key()[0] == '$');
    let base = if tp.len() > 0 {
        let j = choose|j: int| 0 <= j < es.len() && #[trigger] tp[0] == es[j];
        let s = written_text(es);
        assert(es[j].0 == text_key());
        assert(es[j].1 == Tree::Str(s));
        lemma_trimmed(s);
        assert(!has_key(ap, text_key())) by {
            if has_key(ap, text_key()) {
                let i = choose|i: int| 0 <= i < ap.len() && (#[trigger] ap[i]).0 == text_key();
                assert(is_attr_key(ap[i].0));
            }
        }
        lemma_put_fresh(ap, text_key(), Tree::Str(s));
        assert(tp =~= seq![(text_key(), Tree::Str(s))]);
        put(ap, text_key(), Tree::Str(s))
    } else {
        assert(trimmed(Seq::<char>::empty()) =~= Seq::<char>::empty()) by {
            lemma_trimmed(Seq::<char>::empty());
        }
        ap
    };
    assert(base == ap + tp) by {
        if tp.len() == 0 {
            assert(ap + tp =~= ap);
        }
    }
    assert forall|i: int| 0 <= i < cp.len() implies !has_key(base, #[trigger] cp[i].0) by {
        assert(is_child_key(cp[i].0));
        if has_key(base, cp[i].0) {
            let j = choose|j: int| 0 <= j < base.len() && (#[trigger] base[j]).0 == cp[i].0;
            if j < ap.len() {
                assert(base[j] == ap[j]);
                assert(is_attr_key(ap[j].0));
            } else {
                assert(base[j] == tp[j - ap.len()]);
                assert(tp[j - ap.len()].0 == text_key());
            }
        }
    }
    lemma_put_all_fresh(base, cp);
}

proof fn lemma_element_run(st: ReadState, t: Tree, n: Seq<char>, rest: Seq<Token>)
    requires
        round_trips(t),
        !st.done,
    ensures
        read_run(st, tree_events(t, Some(n)) + rest) == read_run(
            close_element(ReadState { stack: st.stack.push(frame_of(t->Object_0, n)), ..st }),
            rest,
        ),
    decreases t,
{
    let es = t->Object_0;
    lemma_round_trip_entries(es);
    lemma_parts_keys(es);
    lemma_parts_unique(es);
    lemma_attr_pairs(es);
    let ps = attr_pairs(es);
    lemma_attr_entries_fresh(ps);
    lemma_text_events(es);
    lemma_no_anonymous_events(es);
    let tx = text_events(es);
    let cs = child_events(es);
    let end_rest = seq![Token::End(n)] + rest;
    let x = seq![Token::Start(n, ps)] + (tx + (cs + end_rest));
    let x1 = tx + (cs + end_rest);
    assert(tree_events(t, Some(n)) + rest =~= x);
    let st1 = crate::reader::open_element(st, n, ps);
    assert(x.drop_first() =~= x1);
    assert(read_run(st, x) == read_run(st1, x1));
    let empty_frame = Frame { name: n, attrs: attr_part(es), text: Seq::empty(), children: Seq::empty() };
    assert(st1 == ReadState { stack: st.stack.push(empty_frame), ..st });
    let st2 = ReadState {
        stack: st.stack.push(Frame { text: written_text(es), ..empty_frame }),
        ..st
    };
    if tx.len() > 0 {
        assert((tx + (cs + end_rest))[0] == Token::Text(written_text(es)));
        assert((tx + (cs + end_rest)).drop_first() =~= cs + end_rest);
        assert(Seq::<char>::empty() + written_text(es) =~= written_text(es));
        assert(crate::reader::add_text(st1, written_text(es)).stack =~= st2.stack);
        assert(crate::reader::add_text(st1, written_text(es)) == st2);
        assert(read_run(st1, x1) == read_run(st2, cs + end_rest));
    } else {
        assert(tx + (cs + end_rest) =~= cs + end_rest);
        assert(st1.stack =~= st2.stack);
        assert(st1 == st2);
    }
    assert(read_run(st, tree_events(t, Some(n)) + rest) == read_run(st2, cs + end_rest));
    assert(decreases_to!(t => es));
    lemma_children_run(st2, es, end_rest);
    let st3 = set_top_children(st2, Seq::empty() + child_part(es));
    assert(Seq::<(Seq<char>, Tree)>::empty() + child_part(es) =~= child_part(es));
    assert(st3.stack =~= st.stack.push(frame_of(es, n)));
    assert(end_rest.drop_first() =~= rest);
}

proof fn lemma_children_run(st: ReadState, es: Seq<(Seq<char>, Tree)>, rest: Seq<Token>)
    requires
        !st.done,
        st.stack.len() > 0,
        unique_keys(es),
        forall|i: int| 0 <= i < es.len() && is_child_key(es[i].0) ==> round_trips(#[trigger] es[i].1),
        forall|i: int|
            0 <= i < es.len() && is_child_key(#[trigger] es[i].0) ==> !has_key(st.stack.last().children, es[i].0),
    ensures
        read_run(st, child_events(es) + rest) == read_run(
            set_top_children(st, st.stack.last().children + child_part(es)),
            rest,
        ),
    decreases es,
{
    let top = st.stack.last();
    if es.len() == 0 {
        assert(child_events(es) + rest =~= rest);
        assert(top.children + child_part(es) =~= top.children);
        assert(set_top_children(st, top.children).stack =~= st.stack);
    } else {
        let d = es.drop_first();
        lemma_unique_drop_first(es);
        assert forall|i: int| 0 <= i < d.len() && is_child_key(d[i].0) implies round_trips(#[trigger] d[i].1) by {
            assert(d[i] == es[i + 1]);
        }
        if is_child_key(es[0].0) {
            let k = es[0].0;
            let v = es[0].1;
            assert(round_trips(es[0].1));
            assert(decreases_to!(es => es[0]));
            assert(decreases_to!(es[0] => es[0].1));
            lemma_element_run(st, v, k, child_events(d) + rest);
            assert(child_events(es) + rest =~= tree_events(v, Some(k)) + (child_events(d) + rest));
            let pushed = ReadState { stack: st.stack.push(frame_of(v->Object_0, k)), ..st };
            lemma_element_tree(v->Object_0, k);
            assert(v == Tree::Object(v->Object_0));
            assert(!has_key(top.children, k));
            lemma_put_fresh(top.children, k, canonical(v));
            let c1 = top.children.push((k, canonical(v)));
            let st1 = set_top_children(st, c1);
            assert(pushed.stack.drop_last() =~= st.stack);
            assert(close_element(pushed) == st1);
            assert forall|i: int|
                0 <= i < d.len() && is_child_key(#[trigger] d[i].0) implies !has_key(st1.stack.last().children, d[i].0) by {
                assert(d[i] == es[i + 1]);
                if has_key(c1, d[i].0) {
                    let j = choose|j: int| 0 <= j < c1.len() && (#[trigger] c1[j]).0 == d[i].0;
                    if j < top.children.len() {
                        assert(c1[j] == top.children[j]);
                    } else {
                        assert(es[0].0 != es[i + 1].0);
                    }
                }
            }
            lemma_children_run(st1, d, rest);
            assert(c1 + child_part(d) =~= top.children + child_part(es));
            assert(set_top_children(st1, c1 + child_part(d)).stack =~= set_top_children(
                st,
                top.children + child_part(es),
            ).stack);
        } else {
            assert forall|i: int|
                0 <= i < d.len() && is_child_key(#[trigger] d[i].0) implies !has_key(st.stack.last().children, d[i].0) by {
                assert(d[i] == es[i + 1]);
            }
            lemma_children_run(st, d, rest);
        }
    }
}

proof fn lemma_parts_cover(es: Seq<(Seq<char>, Tree)>)
    requires
        forall|i: int| 0 <= i < es.len() ==> is_attr_key(#[trigger] es[i].0) || es[i].0 == text_key() || is_child_key(es[i].0),
    ensures
        attr_part(es).len() + text_part(es).len() + child_part(es).len() == es.len(),
    decreases es.len(),
{
    if es.len() > 0 {
        let d = es.drop_first();
        assert forall|i: int| 0 <= i < d.len() implies is_attr_key(#[trigger] d[i].0) || d[i].0 == text_key() || is_child_key(d[i].0) by {
            assert(d[i] == es[i + 1]);
        }
        lemma_parts_cover(d);
        assert(text_key()[0] == '$');
        assert(is_attr_key(es[0].0) || es[0].0 == text_key() || is_child_key(es[0].0));
    }
}

proof fn lemma_attr_in_part(es: Seq<(Seq<char>, Tree)>, i: int)
    requires
        0 <= i < es.len(),
        is_attr_key(es[i].0),
    ensures
        exists|j: int| 0 <= j < attr_part(es).len() && #[trigger] attr_part(es)[j] == es[i],
    decreases i,
{
    let d = es.drop_first();
    if i == 0 {
        assert(attr_part(es)[0] == es[0]);
    } else {
        assert(d[i - 1] == es[i]);
        lemma_attr_in_part(d, i - 1);
        let j = choose|j: int| 0 <= j < attr_part(d).len() && #[trigger] attr_part(d)[j] == d[i - 1];
        if is_attr_key(es[0].0) {
            assert(attr_part(es)[j + 1] == attr_part(d)[j]);
        } else {
            assert(attr_part(es)[j] == attr_part(d)[j]);
        }
    }
}

proof fn lemma_attr_pair_written(es: Seq<(Seq<char>, Tree)>, i: int, v: Seq<char>)
    requires
        0 <= i < es.len(),
        is_attr_key(es[i].0),
        es[i].1 == Tree::Str(v),
    ensures
        exists|j: int| 0 <= j < attr_pairs(es).len() && #[trigger] attr_pairs(es)[j] == (es[i].0.drop_first(), v),
    decreases i,
{
    let d = es.drop_first();
    if i == 0 {
        assert(attr_pairs(es)[0] == (es[0].0.drop_first(), v));
    } else {
        assert(d[i - 1] == es[i]);
        lemma_attr_pair_written(d, i - 1, v);
        let j = choose|j: int| 0 <= j < attr_pairs(d).len() && #[trigger] attr_pairs(d)[j] == (es[i].0.drop_first(), v);
        if es[0].1 is Str && is_attr_key(es[0].0) {
            assert(attr_pairs(es)[j + 1] == attr_pairs(d)[j]);
        } else {
            assert(attr_pairs(es)[j] == attr_pairs(d)[j]);
        }
    }
}

/// A value that round-trips, written as markup events under the element
/// name `n` (or `root` when no name is given) and read back, is `{n: v'}`
/// where `v'` is `v` with each object's entries in the reader's order:
/// attributes, text, then elements.
pub proof fn lemma_round_trip(t: Tree, n: Seq<char>)
    requires
        round_trips(t),
    ensures
        read_tokens(tree_events(t, Some(n))) == Ok::<Option<Tree>, ()>(Some(Tree::Object(seq![(n, canonical(t))]))),
        read_tokens(tree_events(t, None)) == Ok::<Option<Tree>, ()>(
            Some(Tree::Object(seq![(root_tag(), canonical(t))])),
        ),
{
    assert forall|m: Seq<char>| #[trigger] read_tokens(tree_events(t, Some(m))) == Ok::<Option<Tree>, ()>(
        Some(Tree::Object(seq![(m, canonical(t))])),
    ) by {
        lemma_element_run(initial_state(), t, m, Seq::empty());
        assert(tree_events(t, Some(m)) + Seq::<Token>::empty() =~= tree_events(t, Some(m)));
        lemma_element_tree(t->Object_0, m);
        let pushed = ReadState { stack: initial_state().stack.push(frame_of(t->Object_0, m)), ..initial_state() };
        assert(pushed.stack.drop_last() =~= Seq::<Frame>::empty());
    }
    assert(tree_events(t, None) == tree_events(t, Some(root_tag())));
}

/// Reordering into the reader's order keeps the entries: as many of them,
/// with unique keys, each one an entry of the given value (nested objects
/// reordered alike).
pub proof fn lemma_canonical_entries(t: Tree)
    requires
        round_trips(t),
    ensures
        canonical(t)->Object_0.len() == t->Object_0.len(),
        unique_keys(canonical(t)->Object_0),
        forall|i: int|
            0 <= i < canonical(t)->Object_0.len() ==> exists|j: int|
                0 <= j < t->Object_0.len() && #[trigger] canonical(t)->Object_0[i] == (
                    t->Object_0[j].0,
                    canonical(#[trigger] t->Object_0[j].1),
                ),
{
    let es = t->Object_0;
    lemma_round_trip_entries(es);
    lemma_parts_keys(es);
    lemma_parts_unique(es);
    assert(text_key()[0] == '$');
    assert forall|i: int| 0 <= i < es.len() implies is_attr_key(#[trigger] es[i].0) || es[i].0 == text_key() || is_child_key(es[i].0) by {
        assert(es[i] == es[i]);
    }
    lemma_parts_cover(es);
    let ap = attr_part(es);
    let tp = text_part(es);
    let cp = child_part(es);
    let c = ap + tp + cp;
    assert(canonical(t)->Object_0 == c);
    assert forall|i: int, j: int| 0 <= i < j < c.len() implies #[trigger] c[i].0 != #[trigger] c[j].0 by {
        if j < ap.len() {
            assert(c[i] == ap[i] && c[j] == ap[j]);
        } else if j < ap.len() + tp.len() {
            assert(c[j] == tp[j - ap.len()]);
            if i < ap.len() {
                assert(c[i] == ap[i]);
                assert(is_attr_key(ap[i].0));
            } else {
                assert(tp.len() <= 1);
            }
        } else {
            assert(c[j] == cp[j - ap.len() - tp.len()]);
            assert(is_child_key(cp[j - ap.len() - tp.len()].0));
            if i < ap.len() {
                assert(c[i] == ap[i]);
                assert(is_attr_key(ap[i].0));
            } else if i < ap.len() + tp.len() {
                assert(c[i] == tp[i - ap.len()]);
                assert(tp[i - ap.len()].0 == text_key());
            } else {
                assert(c[i] == cp[i - ap.len() - tp.len()]);
            }
        }
    }
    assert forall|i: int| 0 <= i < c.len() implies exists|j: int|
        0 <= j < es.len() && #[trigger] c[i] == (es[j].0, canonical(#[trigger] es[j].1)) by {
        if i < ap.len() {
            assert(c[i] == ap[i]);
            let j = choose|j: int| 0 <= j < es.len() && #[trigger] ap[i] == es[j];
            assert(es[j].1 is Str);
            assert(canonical(es[j].1) == es[j].1);
        } else if i < ap.len() + tp.len() {
            assert(c[i] == tp[i - ap.len()]);
            let j = choose|j: int| 0 <= j < es.len() && #[trigger] tp[i - ap.len()] == es[j];
            assert(es[j].1 is Str);
            assert(canonical(es[j].1) == es[j].1);
        } else {
            assert(c[i] == cp[i - ap.len() - tp.len()]);
            lemma_child_in_part(es, i - ap.len() - tp.len());
        }
    }
}

proof fn lemma_child_in_part(es: Seq<(Seq<char>, Tree)>, i: int)
    requires
        0 <= i < child_part(es).len(),
    ensures
        exists|j: int| 0 <= j < es.len() && #[trigger] child_part(es)[i] == (es[j].0, canonical(#[trigger] es[j].1)),
    decreases es.len(),
{
    let d = es.drop_first();
    if is_child_key(es[0].0) && i == 0 {
        assert(child_part(es)[0] == (es[0].0, canonical(es[0].1)));
    } else {
        let i2 = if is_child_key(es[0].0) { i - 1 } else { i };
        assert(child_part(es)[i] == child_part(d)[i2]);
        lemma_child_in_part(d, i2);
        let j = choose|j: int| 0 <= j < d.len() && #[trigger] child_part(d)[i2] == (d[j].0, canonical(#[trigger] d[j].1));
        assert(d[j] == es[j + 1]);
    }
}

/// An attribute `@k` holding the string `v` is written as attribute `k`
/// with value `v` on the element's opening tag (quick_xml escapes it); in a
/// value that round-trips it is read back as the same `@k` entry.
pub proof fn lemma_attribute_kept(t: Tree, n: Seq<char>, i: int, v: Seq<char>)
    requires
        t is Object,
        0 <= i < t->Object_0.len(),
        is_attr_key(t->Object_0[i].0),
        t->Object_0[i].1 == Tree::Str(v),
    ensures
        tree_events(t, Some(n))[0] == Token::Start(n, attr_pairs(t->Object_0)),
        exists|j: int|
            0 <= j < attr_pairs(t->Object_0).len() && #[trigger] attr_pairs(t->Object_0)[j] == (
                t->Object_0[i].0.drop_first(),
                v,
            ),
        round_trips(t) ==> find(canonical(t)->Object_0, t->Object_0[i].0) == Some(Tree::Str(v)),
{
    let es = t->Object_0;
    lemma_attr_pair_written(es, i, v);
    assert(t == Tree::Object(es));
    assert(tree_events(t, Some(n))[0] == Token::Start(n, attr_pairs(es)));
    let w = choose|j: int| 0 <= j < attr_pairs(es).len() && #[trigger] attr_pairs(es)[j] == (es[i].0.drop_first(), v);
    assert(0 <= w < attr_pairs(es).len() && attr_pairs(es)[w] == (es[i].0.drop_first(), v));
    if round_trips(t) {
        lemma_attr_in_part(es, i);
        lemma_canonical_entries(t);
        let c = canonical(t)->Object_0;
        let j = choose|j: int| 0 <= j < attr_part(es).len() && #[trigger] attr_part(es)[j] == es[i];
        assert(c == attr_part(es) + text_part(es) + child_part(es));
        assert(c[j] == es[i]);
        lemma_key_index(c, es[i].0);
        crate::value::lemma_key_index_found(c, es[i].0, j);
        if key_index(c, es[i].0) < j {
            assert(c[key_index(c, es[i].0)].0 == c[j].0);
        }
    }
}

/// One attribute as an opening tag carries it.
pub open spec fn attr_markup(k: Seq<char>, v: Seq<char>) -> Seq<char> {
    " "@ + k + "=\""@ + escaped(v) + "\""@
}

proof fn lemma_attrs_markup_prefix(p: Seq<(Seq<char>, Seq<char>)>, m: int)
    requires
        0 <= m <= p.len(),
    ensures
        attrs_markup(p.take(m)).len() <= attrs_markup(p).len(),
        attrs_markup(p).take(attrs_markup(p.take(m)).len() as int) == attrs_markup(p.take(m)),
    decreases p.len(),
{
    if m == p.len() {
        assert(p.take(m) =~= p);
        assert(attrs_markup(p).take(attrs_markup(p).len() as int) =~= attrs_markup(p));
    } else {
        let d = p.drop_last();
        lemma_attrs_markup_prefix(d, m);
        assert(d.take(m) =~= p.take(m));
        let tail = " "@ + p.last().0 + "=\""@ + escaped(p.last().1) + "\""@;
        assert(attrs_markup(p) == attrs_markup(d) + tail);
        assert(attrs_markup(p).take(attrs_markup(p.take(m)).len() as int) =~= attrs_markup(d).take(
            attrs_markup(p.take(m)).len() as int,
        ));
    }
}

proof fn lemma_markup_of_concat(a: Seq<Token>, b: Seq<Token>)
    ensures
        markup_of(a + b) == markup_of(a) + markup_of(b),
    decreases b.len(),
{
    if b.len() == 0 {
        assert(a + b =~= a);
        assert(markup_of(a) + markup_of(b) =~= markup_of(a));
    } else {
        lemma_markup_of_concat(a, b.drop_last());
        assert((a + b).drop_last() =~= a + b.drop_last());
        assert((a + b).last() == b.last());
        assert(markup_of(a + b) =~= markup_of(a) + markup_of(b));
    }
}

/// An attribute `@k` holding the string `v` is written in the text: the
/// markup starts with the element's opening tag, which carries ` k="v"`
/// with `v` escaped. When the `@`-keys are unique and all hold strings, the
/// tag carries an attribute named `k` exactly once.
pub proof fn lemma_attribute_written(t: Tree, n: Seq<char>, i: int, v: Seq<char>)
    requires
        t is Object,
        0 <= i < t->Object_0.len(),
        is_attr_key(t->Object_0[i].0),
        t->Object_0[i].1 == Tree::Str(v),
    ensures
        ({
            let tag = "<"@ + n + attrs_markup(attr_pairs(t->Object_0)) + ">"@;
            let text = markup_of(tree_events(t, Some(n)));
            &&& text.len() >= tag.len()
            &&& text.take(tag.len() as int) == tag
            &&& occurs_in(tag, attr_markup(t->Object_0[i].0.drop_first(), v))
        }),
        unique_keys(t->Object_0) && attrs_are_strings(t->Object_0) ==> forall|j1: int, j2: int|
            0 <= j1 < attr_pairs(t->Object_0).len() && 0 <= j2 < attr_pairs(t->Object_0).len()
                && (#[trigger] attr_pairs(t->Object_0)[j1]).0 == t->Object_0[i].0.drop_first()
                && (#[trigger] attr_pairs(t->Object_0)[j2]).0 == t->Object_0[i].0.drop_first() ==> j1 == j2,
{
    let es = t->Object_0;
    let ps = attr_pairs(es);
    let tag = "<"@ + n + attrs_markup(ps) + ">"@;
    let evs = tree_events(t, Some(n));
    lemma_attr_pair_written(es, i, v);
    let j = choose|j: int| 0 <= j < ps.len() && #[trigger] ps[j] == (es[i].0.drop_first(), v);
    assert(t == Tree::Object(es));
    let rest = text_events(es) + anonymous_events(es) + child_events(es) + seq![Token::End(n)];
    assert(evs == seq![Token::Start(n, ps)] + text_events(es) + anonymous_events(es) + child_events(es)
        + seq![Token::End(n)]);
    assert(evs =~= seq![Token::Start(n, ps)] + rest);
    assert(evs.drop_first() =~= rest);
    lemma_markup_of_concat(seq![Token::Start(n, ps)], evs.drop_first());
    assert(markup_of(seq![Token::Start(n, ps)]) == tag) by {
        assert(seq![Token::Start(n, ps)].drop_last() =~= Seq::<Token>::empty());
        assert(markup_of(Seq::<Token>::empty()) == Seq::<char>::empty());
        assert(crate::markup::token_markup(Token::Start(n, ps)) == tag);
        assert(Seq::<char>::empty() + tag =~= tag);
    }
    let text = markup_of(evs);
    assert(text.take(tag.len() as int) =~= tag);
    lemma_attrs_markup_prefix(ps, j + 1);
    let piece = attr_markup(es[i].0.drop_first(), v);
    assert(ps.take(j + 1).drop_last() =~= ps.take(j));
    assert(attrs_markup(ps.take(j + 1)) =~= attrs_markup(ps.take(j)) + piece);
    let x = "<"@ + n + attrs_markup(ps.take(j));
    let am = attrs_markup(ps);
    let pre = attrs_markup(ps.take(j + 1));
    assert(am =~= pre + am.skip(pre.len() as int));
    assert(tag =~= x + piece + (am.skip(pre.len() as int) + ">"@));
    assert(tag.subrange(x.len() as int, (x.len() + piece.len()) as int) =~= piece);
    if unique_keys(es) && attrs_are_strings(es) {
        lemma_attr_pairs(es);
        lemma_parts_unique(es);
        assert forall|j1: int, j2: int|
            0 <= j1 < ps.len() && 0 <= j2 < ps.len() && (#[trigger] ps[j1]).0 == es[i].0.drop_first()
                && (#[trigger] ps[j2]).0 == es[i].0.drop_first() implies j1 == j2 by {
            let ae = at_entries(ps);
            assert(ae[j1].0 == seq!['@'] + ps[j1].0);
            assert(ae[j2].0 == seq!['@'] + ps[j2].0);
            assert(ae == attr_part(es));
        }
    }
}

} // verus!
