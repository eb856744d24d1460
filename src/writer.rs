use vstd::prelude::*;
use crate::markup::{MarkupEvent, Token, events_view, markup_text, token_markup};
use crate::text::{starts_with_char, without_first};
use crate::value::{Tree, Value, entries_view, items_view, lemma_entries_view, lemma_items_view};

verus! {

broadcast use {vstd::std_specs::vec::group_vec_axioms, vstd::seq::group_seq_axioms};

pub open spec fn root_tag() -> Seq<char> {
    seq!['r', 'o', 'o', 't']
}

pub open spec fn text_key() -> Seq<char> {
    seq!['$', 't', 'e', 'x', 't']
}

pub open spec fn children_key() -> Seq<char> {
    seq!['$', 'c', 'h', 'i', 'l', 'd', 'r', 'e', 'n']
}

pub open spec fn bool_text(b: bool) -> Seq<char> {
    if b {
        seq!['t', 'r', 'u', 'e']
    } else {
        seq!['f', 'a', 'l', 's', 'e']
    }
}

pub open spec fn begins_with(s: Seq<char>, c: char) -> bool {
    s.len() > 0 && s[0] == c
}

/// A key that names an attribute.
pub open spec fn is_attr_key(k: Seq<char>) -> bool {
    begins_with(k, '@')
}

/// A key that names a nested element: neither an attribute nor a reserved
/// `$` key.
pub open spec fn is_child_key(k: Seq<char>) -> bool {
    !begins_with(k, '@') && !begins_with(k, '$')
}

/// The attributes an object is written with: each `@`-key whose value is a
/// string, without its `@`, in entry order. Other `@`-keys are skipped.
pub open spec fn attr_pairs(es: Seq<(Seq<char>, Tree)>) -> Seq<(Seq<char>, Seq<char>)>
    decreases es.len(),
{
    if es.len() == 0 {
        Seq::empty()
    } else {
        let rest = attr_pairs(es.drop_first());
        match es[0].1 {
            Tree::Str(v) => if is_attr_key(es[0].0) {
                seq![(es[0].0.drop_first(), v)] + rest
            } else {
                rest
            },
            _ => rest,
        }
    }
}

/// The text of an object: its first `$text` entry, if that holds a string.
pub open spec fn text_events(es: Seq<(Seq<char>, Tree)>) -> Seq<Token>
    decreases es.len(),
{
    if es.len() == 0 {
        Seq::empty()
    } else if es[0].0 == text_key() {
        match es[0].1 {
            Tree::Str(t) => seq![Token::Text(t)],
            _ => Seq::empty(),
        }
    } else {
        text_events(es.drop_first())
    }
}

/// An empty element as quick_xml writes it: `<n/>`.
pub open spec fn empty_tag(n: Seq<char>) -> Seq<char> {
    seq!['<'] + n + seq!['/', '>']
}

/// The events a value is written as, under `name`. An object becomes an
/// element (named `root` when no name is given) with its string `@`-entries
/// as attributes, its `$text`, the items of its `$children` list written
/// without a name when `anonymous` is set, and one element per other key. A
/// list writes each item under the same name. A scalar becomes an element
/// holding its text, or bare text without a name. Null becomes an empty
/// element `<n/>`, or nothing.
pub open spec fn element_events(t: Tree, name: Option<Seq<char>>, anonymous: bool) -> Seq<Token>
    decreases t,
{
    match t {
        Tree::Object(es) => {
            let n = match name {
                Some(n) => n,
                None => root_tag(),
            };
            seq![Token::Start(n, attr_pairs(es))] + text_events(es) + (if anonymous {
                anonymous_events(es)
            } else {
                Seq::empty()
            }) + child_events_in(es, anonymous) + seq![Token::End(n)]
        },
        Tree::Array(items) => items_events(items, name, anonymous),
        Tree::Str(s) => scalar_events(s, name),
        Tree::Number(s) => scalar_events(s, name),
        Tree::Bool(b) => scalar_events(bool_text(b), name),
        Tree::Null => match name {
            Some(n) => seq![Token::Markup(empty_tag(n))],
            None => Seq::empty(),
        },
    }
}

/// The events of the structured-to-markup writer, which writes `$children`.
pub open spec fn tree_events(t: Tree, name: Option<Seq<char>>) -> Seq<Token> {
    element_events(t, name, true)
}

/// The events of a merged document, written under `n`: as `tree_events`,
/// but every `$` key other than `$text` (`$children` included) is skipped.
pub open spec fn merge_events(t: Tree, n: Seq<char>) -> Seq<Token> {
    element_events(t, Some(n), false)
}

pub open spec fn scalar_events(s: Seq<char>, name: Option<Seq<char>>) -> Seq<Token> {
    match name {
        Some(n) => seq![Token::Start(n, Seq::empty()), Token::Text(s), Token::End(n)],
        None => seq![Token::Text(s)],
    }
}

/// Each item written under the same name.
pub open spec fn items_events(items: Seq<Tree>, name: Option<Seq<char>>, anonymous: bool) -> Seq<Token>
    decreases items,
{
    if items.len() == 0 {
        Seq::empty()
    } else {
        element_events(items[0], name, anonymous) + items_events(items.drop_first(), name, anonymous)
    }
}

/// The anonymous children of the first `$children` entry, if that holds a
/// list.
pub open spec fn anonymous_events(es: Seq<(Seq<char>, Tree)>) -> Seq<Token>
    decreases es,
{
    if es.len() == 0 {
        Seq::empty()
    } else if es[0].0 == children_key() {
        match es[0].1 {
            Tree::Array(items) => items_events(items, None, true),
            _ => Seq::empty(),
        }
    } else {
        anonymous_events(es.drop_first())
    }
}

/// Each entry with a child key, written as an element of that name.
pub open spec fn child_events_in(es: Seq<(Seq<char>, Tree)>, anonymous: bool) -> Seq<Token>
    decreases es,
{
    if es.len() == 0 {
        Seq::empty()
    } else if is_child_key(es[0].0) {
        element_events(es[0].1, Some(es[0].0), anonymous) + child_events_in(es.drop_first(), anonymous)
    } else {
        child_events_in(es.drop_first(), anonymous)
    }
}

pub open spec fn child_events(es: Seq<(Seq<char>, Tree)>) -> Seq<Token> {
    child_events_in(es, true)
}

/// The text of a sequence of events.
pub open spec fn markup_of(ts: Seq<Token>) -> Seq<char>
    decreases ts.len(),
{
    if ts.len() == 0 {
        Seq::empty()
    } else {
        markup_of(ts.drop_last()) + token_markup(ts.last())
    }
}

pub open spec fn name_view(name: Option<&str>) -> Option<Seq<char>> {
    match name {
        Some(n) => Some(n@),
        None => None,
    }
}

proof fn lemma_skip_step<A>(s: Seq<A>, i: int)
    requires
        0 <= i < s.len(),
    ensures
        s.skip(i).len() > 0,
        s.skip(i)[0] == s[i],
        s.skip(i).drop_first() == s.skip(i + 1),
{
    assert(s.skip(i).drop_first() =~= s.skip(i + 1));
}

/// The attributes an object is written with.
fn attributes_of(entries: &Vec<(String, Value)>) -> (r: Vec<(String, String)>)
    ensures
        crate::markup::attrs_view(r@) == attr_pairs(entries_view(entries@)),
{
    let ghost es = entries_view(entries@);
    proof {
        lemma_entries_view(entries@);
        assert(es.skip(0) == es);
    }
    let mut r: Vec<(String, String)> = Vec::new();
    let mut i: usize = 0;
    while i < entries.len()
        invariant
            i <= entries@.len(),
            es == entries_view(entries@),
            es.len() == entries@.len(),
            forall|j: int| 0 <= j < es.len() ==> #[trigger] es[j] == (entries@[j].0@, entries@[j].1@),
            crate::markup::attrs_view(r@) + attr_pairs(es.skip(i as int)) == attr_pairs(es),
        decreases entries@.len() - i,
    {
        proof {
            lemma_skip_step(es, i as int);
        }
        let ghost before = r@;
        let (k, v) = &entries[i];
        if let Value::String(text) = v {
            if starts_with_char(k.as_str(), '@') {
                r.push((without_first(k.as_str()), text.clone()));
                assert(crate::markup::attrs_view(r@) =~= crate::markup::attrs_view(before)
                    + seq![(k@.drop_first(), text@)]);
            }
        }
        i = i + 1;
    }
    proof {
        assert(es.skip(i as int) =~= Seq::empty());
    }
    r
}

fn push_event(out: &mut Vec<MarkupEvent>, e: MarkupEvent)
    ensures
        events_view(final(out)@) == events_view(old(out)@).push(e@),
{
    out.push(e);
    assert(events_view(out@) =~= events_view(old(out)@).push(e@));
}

/// Appends the events of a scalar whose text is `s`.
fn write_scalar(s: String, name: Option<&str>, out: &mut Vec<MarkupEvent>)
    ensures
        events_view(final(out)@) == events_view(old(out)@) + scalar_events(s@, name_view(name)),
{
    let ghost start = events_view(out@);
    let ghost sv = s@;
    match name {
        Some(n) => {
            push_event(out, MarkupEvent::Start(n.to_owned(), Vec::new()));
            push_event(out, MarkupEvent::Text(s));
            push_event(out, MarkupEvent::End(n.to_owned()));
            assert(crate::markup::attrs_view(Seq::<(String, String)>::empty()) =~= Seq::empty());
            assert(events_view(out@) =~= start + scalar_events(sv, name_view(name)));
        },
        None => {
            push_event(out, MarkupEvent::Text(s));
            assert(events_view(out@) =~= start + scalar_events(sv, name_view(name)));
        },
    }
}

/// Appends the text of an object, if it has one.
fn write_text(entries: &Vec<(String, Value)>, out: &mut Vec<MarkupEvent>)
    ensures
        events_view(final(out)@) == events_view(old(out)@) + text_events(entries_view(entries@)),
{
    let ghost es = entries_view(entries@);
    proof {
        lemma_entries_view(entries@);
        assert(es.skip(0) == es);
    }
    let key = "$text";
    proof {
        reveal_strlit("$text");
    }
    let mut i: usize = 0;
    while i < entries.len()
        invariant
            i <= entries@.len(),
            es == entries_view(entries@),
            es.len() == entries@.len(),
            forall|j: int| 0 <= j < es.len() ==> #[trigger] es[j] == (entries@[j].0@, entries@[j].1@),
            key@ == text_key(),
            text_events(es.skip(i as int)) == text_events(es),
            out@ == old(out)@,
        decreases entries@.len() - i,
    {
        proof {
            lemma_skip_step(es, i as int);
        }
        let (k, v) = &entries[i];
        if crate::value::text_eq(k.as_str(), key) {
            if let Value::String(t) = v {
                push_event(out, MarkupEvent::Text(t.clone()));
            }
            return;
        }
        i = i + 1;
    }
    proof {
        assert(es.skip(i as int) =~= Seq::empty());
    }
}

/// Appends each item under the same name.
fn write_items(items: &Vec<Value>, name: Option<&str>, anonymous: bool, out: &mut Vec<MarkupEvent>)
    ensures
        events_view(final(out)@) == events_view(old(out)@) + items_events(items_view(items@), name_view(name), anonymous),
    decreases items,
{
    let ghost ts = items_view(items@);
    proof {
        lemma_items_view(items@);
        assert(ts.skip(0) == ts);
    }
    let mut i: usize = 0;
    while i < items.len()
        invariant
            i <= items@.len(),
            ts == items_view(items@),
            ts.len() == items@.len(),
            forall|j: int| 0 <= j < ts.len() ==> #[trigger] ts[j] == items@[j]@,
            events_view(out@) + items_events(ts.skip(i as int), name_view(name), anonymous) == events_view(old(out)@)
                + items_events(ts, name_view(name), anonymous),
        decreases items@.len() - i,
    {
        proof {
            lemma_skip_step(ts, i as int);
            vstd::std_specs::vec::axiom_vec_index_decreases(*items, i as int);
        }
        let ghost before = events_view(out@);
        write_events_in(&items[i], name, anonymous, out);
        assert(events_view(out@) + items_events(ts.skip(i + 1), name_view(name), anonymous) =~= before
            + items_events(ts.skip(i as int), name_view(name), anonymous));
        i = i + 1;
    }
    proof {
        assert(ts.skip(i as int) =~= Seq::empty());
        assert(events_view(out@) + items_events(ts.skip(i as int), name_view(name), anonymous) =~= events_view(out@));
    }
}

/// Appends the anonymous children of an object, if it has any.
fn write_anonymous(entries: &Vec<(String, Value)>, out: &mut Vec<MarkupEvent>)
    ensures
        events_view(final(out)@) == events_view(old(out)@) + anonymous_events(entries_view(entries@)),
    decreases entries,
{
    let ghost es = entries_view(entries@);
    proof {
        lemma_entries_view(entries@);
        assert(es.skip(0) == es);
    }
    let key = "$children";
    proof {
        reveal_strlit("$children");
    }
    let mut i: usize = 0;
    while i < entries.len()
        invariant
            i <= entries@.len(),
            es == entries_view(entries@),
            es.len() == entries@.len(),
            forall|j: int| 0 <= j < es.len() ==> #[trigger] es[j] == (entries@[j].0@, entries@[j].1@),
            key@ == children_key(),
            anonymous_events(es.skip(i as int)) == anonymous_events(es),
            out@ == old(out)@,
        decreases entries@.len() - i,
    {
        proof {
            lemma_skip_step(es, i as int);
            vstd::std_specs::vec::axiom_vec_index_decreases(*entries, i as int);
            assert(decreases_to!(entries@[i as int] => entries@[i as int].1));
        }
        let (k, v) = &entries[i];
        if crate::value::text_eq(k.as_str(), key) {
            if let Value::Array(items) = v {
                proof {
                    assert(decreases_to!(*v => (*v)->Array_0));
                }
                write_items(items, None, true, out);
            }
            return;
        }
        i = i + 1;
    }
    proof {
        assert(es.skip(i as int) =~= Seq::empty());
    }
}

/// Appends each entry with a child key as an element of that name.
fn write_children(entries: &Vec<(String, Value)>, anonymous: bool, out: &mut Vec<MarkupEvent>)
    ensures
        events_view(final(out)@) == events_view(old(out)@) + child_events_in(entries_view(entries@), anonymous),
    decreases entries,
{
    let ghost es = entries_view(entries@);
    proof {
        lemma_entries_view(entries@);
        assert(es.skip(0) == es);
    }
    let mut i: usize = 0;
    while i < entries.len()
        invariant
            i <= entries@.len(),
            es == entries_view(entries@),
            es.len() == entries@.len(),
            forall|j: int| 0 <= j < es.len() ==> #[trigger] es[j] == (entries@[j].0@, entries@[j].1@),
            events_view(out@) + child_events_in(es.skip(i as int), anonymous) == events_view(old(out)@) + child_events_in(es, anonymous),
        decreases entries@.len() - i,
    {
        proof {
            lemma_skip_step(es, i as int);
            vstd::std_specs::vec::axiom_vec_index_decreases(*entries, i as int);
            assert(decreases_to!(entries@[i as int] => entries@[i as int].1));
        }
        let ghost before = events_view(out@);
        let (k, v) = &entries[i];
        if !starts_with_char(k.as_str(), '@') && !starts_with_char(k.as_str(), '$') {
            write_events_in(v, Some(k.as_str()), anonymous, out);
        }
        assert(events_view(out@) + child_events_in(es.skip(i + 1), anonymous) =~= before + child_events_in(
            es.skip(i as int),
            anonymous,
        ));
        i = i + 1;
    }
    proof {
        assert(es.skip(i as int) =~= Seq::empty());
        assert(events_view(out@) + child_events_in(es.skip(i as int), anonymous) =~= events_view(out@));
    }
}

/// Appends the events of `v` written under `name`.
pub fn write_events_in(v: &Value, name: Option<&str>, anonymous: bool, out: &mut Vec<MarkupEvent>)
    ensures
        events_view(final(out)@) == events_view(old(out)@) + element_events(v@, name_view(name), anonymous),
    decreases v,
{
    match v {
        Value::Object(entries) => {
            let tag = match name {
                Some(n) => n.to_owned(),
                None => {
                    let r = "root";
                    proof {
                        reveal_strlit("root");
                    }
                    r.to_owned()
                },
            };
            let ghost start = events_view(out@);
            let ghost n = match name_view(name) {
                Some(n) => n,
                None => root_tag(),
            };
            proof {
                assert(decreases_to!(*v => (*v)->Object_0));
                assert(v@ == Tree::Object(entries_view(entries@)));
                assert(tag@ == n);
            }
            push_event(out, MarkupEvent::Start(tag.clone(), attributes_of(entries)));
            write_text(entries, out);
            if anonymous {
                write_anonymous(entries, out);
            }
            write_children(entries, anonymous, out);
            push_event(out, MarkupEvent::End(tag));
            assert(events_view(out@) =~= start + element_events(v@, name_view(name), anonymous));
        },
        Value::Array(items) => {
            proof {
                assert(decreases_to!(*v => (*v)->Array_0));
            }
            write_items(items, name, anonymous, out);
        },
        Value::String(s) => {
            write_scalar(s.clone(), name, out);
        },
        Value::Number(s) => {
            write_scalar(s.clone(), name, out);
        },
        Value::Bool(b) => {
            let t = if *b {
                let r = "true";
                proof {
                    reveal_strlit("true");
                    assert(r@ =~= bool_text(true));
                }
                r
            } else {
                let r = "false";
                proof {
                    reveal_strlit("false");
                    assert(r@ =~= bool_text(false));
                }
                r
            };
            write_scalar(t.to_owned(), name, out);
        },
        Value::Null => {
            if let Some(n) = name {
                let ghost start = events_view(out@);
                push_event(out, MarkupEvent::Markup(empty_element(n)));
                assert(events_view(out@) =~= start + element_events(v@, name_view(name), anonymous));
            } else {
                assert(events_view(out@) =~= events_view(out@) + Seq::<Token>::empty());
            }
        },
    }
}

/// Appends the events of `v` written under `name`, as the
/// structured-to-markup writer does.
pub fn write_events(v: &Value, name: Option<&str>, out: &mut Vec<MarkupEvent>)
    ensures
        events_view(final(out)@) == events_view(old(out)@) + tree_events(v@, name_view(name)),
{
    write_events_in(v, name, true, out)
}

/// `<n/>`.
fn empty_element(n: &str) -> (r: String)
    ensures
        r@ == empty_tag(n@),
{
    let open = "<";
    let close = "/>";
    proof {
        reveal_strlit("<");
        reveal_strlit("/>");
        assert(open@ =~= seq!['<']);
        assert(close@ =~= seq!['/', '>']);
    }
    let mut s = open.to_owned();
    s.append(n);
    s.append(close);
    s
}

/// The text of a sequence of events.
pub fn render_markup(events: &Vec<MarkupEvent>) -> (r: String)
    ensures
        r@ == markup_of(events_view(events@)),
{
    let ghost ts = events_view(events@);
    let mut out = String::new();
    let mut i: usize = 0;
    while i < events.len()
        invariant
            i <= events@.len(),
            ts == events_view(events@),
            out@ == markup_of(ts.take(i as int)),
        decreases events@.len() - i,
    {
        let piece = markup_text(&events[i]);
        out.append(piece.as_str());
        proof {
            assert(ts.take(i + 1).drop_last() =~= ts.take(i as int));
        }
        i = i + 1;
    }
    proof {
        assert(ts.take(i as int) =~= ts);
    }
    out
}

/// Writes a value as markup text: an object becomes an element named
/// `root`, as described for `tree_events`.
pub fn value_to_xml(value: &Value) -> (r: Result<String, crate::error::ConversionError>)
    ensures
        r matches Ok(s) && s@ == markup_of(tree_events(value@, None)),
{
    let mut events: Vec<MarkupEvent> = Vec::new();
    write_events(value, None, &mut events);
    assert(events_view(Seq::<MarkupEvent>::empty()) =~= Seq::empty());
    assert(events_view(events@) =~= tree_events(value@, None));
    Ok(render_markup(&events))
}

} // verus!
