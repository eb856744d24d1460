use vstd::prelude::*;
use crate::markup::{MarkupEvent, MarkupReader, Token, events_view, head_token, rest_tokens};
use crate::text::{all_white, lemma_trimmed, lemma_trimmed_twice, trim, trimmed};
use crate::error::ConversionError;
use crate::value::{Tree, Value, entries_view, put, put_entry};
use crate::writer::text_key;

verus! {

broadcast use {vstd::std_specs::vec::group_vec_axioms, vstd::seq::group_seq_axioms};

/// An element whose closing tag has not been read yet.
pub struct Frame {
    pub name: Seq<char>,
    /// Its attributes, under `@`-keys.
    pub attrs: Seq<(Seq<char>, Tree)>,
    /// All character data read inside it so far.
    pub text: Seq<char>,
    /// Nested elements read so far, keyed by tag; a later sibling with the
    /// same tag replaces an earlier one.
    pub children: Seq<(Seq<char>, Tree)>,
}

/// Where a read of a document stands.
pub struct ReadState {
    pub stack: Seq<Frame>,
    pub result: Option<Tree>,
    /// The document's top-level value has been read.
    pub done: bool,
}

/// Attribute `(k, v)` pairs as object entries `"@k": v`, inserted in order.
pub open spec fn attr_entries(attrs: Seq<(Seq<char>, Seq<char>)>) -> Seq<(Seq<char>, Tree)>
    decreases attrs.len(),
{
    if attrs.len() == 0 {
        Seq::empty()
    } else {
        put(
            attr_entries(attrs.drop_last()),
            seq!['@'] + attrs.last().0,
            Tree::Str(attrs.last().1),
        )
    }
}

/// `es` with each entry of `more` inserted in order.
pub open spec fn put_all(es: Seq<(Seq<char>, Tree)>, more: Seq<(Seq<char>, Tree)>) -> Seq<
    (Seq<char>, Tree),
>
    decreases more.len(),
{
    if more.len() == 0 {
        es
    } else {
        put(put_all(es, more.drop_last()), more.last().0, more.last().1)
    }
}

/// The object an element is read as: its attributes, then its trimmed text
/// under `$text` unless that is empty, then its nested elements.
pub open spec fn element_tree(f: Frame) -> Tree {
    let t = trimmed(f.text);
    let base = if t.len() > 0 {
        put(f.attrs, text_key(), Tree::Str(t))
    } else {
        f.attrs
    };
    Tree::Object(put_all(base, f.children))
}

pub open spec fn initial_state() -> ReadState {
    ReadState { stack: Seq::empty(), result: None, done: false }
}

pub open spec fn open_element(
    st: ReadState,
    name: Seq<char>,
    attrs: Seq<(Seq<char>, Seq<char>)>,
) -> ReadState {
    ReadState {
        stack: st.stack.push(
            Frame { name, attrs: attr_entries(attrs), text: Seq::empty(), children: Seq::empty() },
        ),
        ..st
    }
}

/// Closes the innermost open element: it goes into its parent under its
/// tag, or becomes the document's value `{tag: object}`.
pub open spec fn close_element(st: ReadState) -> ReadState {
    if st.stack.len() == 0 {
        st
    } else {
        let f = st.stack.last();
        let rest = st.stack.drop_last();
        let t = element_tree(f);
        if rest.len() == 0 {
            ReadState { stack: rest, result: Some(Tree::Object(seq![(f.name, t)])), done: true }
        } else {
            let p = rest.last();
            ReadState {
                stack: rest.update(rest.len() - 1, Frame { children: put(p.children, f.name, t), ..p }),
                ..st
            }
        }
    }
}

/// Character data joins the innermost open element's text; outside any
/// element, text that is not white space only is the document's value.
pub open spec fn add_text(st: ReadState, t: Seq<char>) -> ReadState {
    if st.stack.len() > 0 {
        let f = st.stack.last();
        ReadState { stack: st.stack.update(st.stack.len() - 1, Frame { text: f.text + t, ..f }), ..st }
    } else if trimmed(t).len() > 0 {
        ReadState { result: Some(Tree::Str(trimmed(t))), done: true, ..st }
    } else {
        st
    }
}

/// At the end of the input every open element is closed, innermost first.
pub open spec fn close_all(st: ReadState) -> ReadState
    decreases st.stack.len(),
{
    if st.stack.len() == 0 {
        ReadState { done: true, ..st }
    } else {
        close_all(close_element(st))
    }
}

/// One event that is neither the end of the input nor a failure.
pub open spec fn read_step(st: ReadState, t: Token) -> ReadState {
    match t {
        Token::Start(n, a) => open_element(st, n, a),
        Token::End(_) => close_element(st),
        Token::Text(s) => add_text(st, s),
        _ => st,
    }
}

/// Reads events until the top-level value is complete, the input ends or a
/// read fails (`Err`).
pub open spec fn read_run(st: ReadState, ts: Seq<Token>) -> Result<ReadState, ()>
    decreases ts.len(),
{
    if st.done {
        Ok(st)
    } else {
        match head_token(ts) {
            Token::Fault => Err(()),
            Token::Eof => Ok(close_all(st)),
            t => read_run(read_step(st, t), ts.drop_first()),
        }
    }
}

/// The value of a document given as its events: `Ok(None)` for a document
/// without content, `Err` when a read fails.
pub open spec fn read_tokens(ts: Seq<Token>) -> Result<Option<Tree>, ()> {
    match read_run(initial_state(), ts) {
        Ok(st) => Ok(st.result),
        Err(_) => Err(()),
    }
}

/// A text as reading stores it: non-empty, without white space at either
/// end, and so never white space only.
pub open spec fn stored_text(s: Seq<char>) -> bool {
    s.len() > 0 && trimmed(s) == s && !all_white(s)
}

/// Every `$text` entry anywhere in the value holds a stored text.
pub open spec fn texts_trimmed(t: Tree) -> bool
    decreases t,
{
    match t {
        Tree::Object(es) => forall|i: int|
            0 <= i < es.len() ==> {
                &&& (es[i].0 == text_key() && es[i].1 is Str ==> stored_text(es[i].1->Str_0))
                &&& texts_trimmed(#[trigger] es[i].1)
            },
        Tree::Array(items) => forall|i: int| 0 <= i < items.len() ==> texts_trimmed(#[trigger] items[i]),
        _ => true,
    }
}

pub proof fn lemma_stored_text(s: Seq<char>)
    requires
        trimmed(s).len() > 0,
    ensures
        stored_text(trimmed(s)),
{
    lemma_trimmed(s);
    lemma_trimmed_twice(s);
    lemma_trimmed(trimmed(s));
}

pub open spec fn entries_texts_trimmed(es: Seq<(Seq<char>, Tree)>) -> bool {
    texts_trimmed(Tree::Object(es))
}

pub proof fn lemma_put_keeps_text(es: Seq<(Seq<char>, Tree)>, k: Seq<char>, v: Tree)
    requires
        entries_texts_trimmed(es),
        texts_trimmed(v),
        k == text_key() && v is Str ==> stored_text(v->Str_0),
    ensures
        entries_texts_trimmed(put(es, k, v)),
{
    crate::value::lemma_key_index(es, k);
    let r = put(es, k, v);
    assert forall|i: int| 0 <= i < r.len() implies {
        &&& (r[i].0 == text_key() && r[i].1 is Str ==> stored_text(r[i].1->Str_0))
        &&& texts_trimmed(#[trigger] r[i].1)
    } by {
        if i < es.len() && r[i] == es[i] {
            assert(texts_trimmed(es[i].1));
        }
    }
}

pub proof fn lemma_put_all_keeps_text(es: Seq<(Seq<char>, Tree)>, more: Seq<(Seq<char>, Tree)>)
    requires
        entries_texts_trimmed(es),
        entries_texts_trimmed(more),
    ensures
        entries_texts_trimmed(put_all(es, more)),
    decreases more.len(),
{
    if more.len() > 0 {
        let d = more.drop_last();
        assert forall|i: int| 0 <= i < d.len() implies {
            &&& (d[i].0 == text_key() && d[i].1 is Str ==> stored_text(d[i].1->Str_0))
            &&& texts_trimmed(#[trigger] d[i].1)
        } by {
            assert(d[i] == more[i]);
            assert(texts_trimmed(more[i].1));
        }
        lemma_put_all_keeps_text(es, d);
        assert(texts_trimmed(more[more.len() - 1].1));
        lemma_put_keeps_text(put_all(es, d), more.last().0, more.last().1);
    }
}

pub proof fn lemma_attr_entries_keep_text(attrs: Seq<(Seq<char>, Seq<char>)>)
    ensures
        entries_texts_trimmed(attr_entries(attrs)),
    decreases attrs.len(),
{
    if attrs.len() > 0 {
        lemma_attr_entries_keep_text(attrs.drop_last());
        let k = seq!['@'] + attrs.last().0;
        assert(k[0] == '@');
        assert(k != text_key()) by {
            assert(text_key()[0] == '$');
        }
        lemma_put_keeps_text(attr_entries(attrs.drop_last()), k, Tree::Str(attrs.last().1));
    }
}

/// Every tree held by a read state has no white-space-only `$text`.
pub open spec fn state_texts_trimmed(st: ReadState) -> bool {
    &&& forall|i: int|
        0 <= i < st.stack.len() ==> entries_texts_trimmed(#[trigger] st.stack[i].attrs)
            && entries_texts_trimmed(st.stack[i].children)
    &&& (st.result matches Some(t) ==> texts_trimmed(t) && (t is Str ==> stored_text(t->Str_0)))
}

proof fn lemma_element_tree_keeps_text(f: Frame)
    requires
        entries_texts_trimmed(f.attrs),
        entries_texts_trimmed(f.children),
    ensures
        texts_trimmed(element_tree(f)),
{
    let t = trimmed(f.text);
    let base = if t.len() > 0 {
        lemma_stored_text(f.text);
        lemma_put_keeps_text(f.attrs, text_key(), Tree::Str(t));
        put(f.attrs, text_key(), Tree::Str(t))
    } else {
        f.attrs
    };
    lemma_put_all_keeps_text(base, f.children);
}

proof fn lemma_close_keeps_text(st: ReadState)
    requires
        state_texts_trimmed(st),
    ensures
        state_texts_trimmed(close_element(st)),
{
    if st.stack.len() > 0 {
        let f = st.stack.last();
        let rest = st.stack.drop_last();
        assert(entries_texts_trimmed(st.stack[st.stack.len() - 1].attrs));
        lemma_element_tree_keeps_text(f);
        let t = element_tree(f);
        if rest.len() == 0 {
            let r = seq![(f.name, t)];
            assert(texts_trimmed(r[0].1));
            assert(texts_trimmed(Tree::Object(r)));
        } else {
            let p = rest.last();
            assert(st.stack[rest.len() - 1] == p);
            assert(entries_texts_trimmed(st.stack[rest.len() - 1].attrs));
            assert(entries_texts_trimmed(p.children));
            lemma_put_keeps_text(p.children, f.name, t);
            let ns = close_element(st).stack;
            assert forall|i: int| 0 <= i < ns.len() implies entries_texts_trimmed(
                #[trigger] ns[i].attrs,
            ) && entries_texts_trimmed(ns[i].children) by {
                if i < rest.len() - 1 {
                    assert(ns[i] == st.stack[i]);
                } else {
                    assert(ns[i].attrs == p.attrs);
                }
            }
        }
    }
}

proof fn lemma_close_all_keeps_text(st: ReadState)
    requires
        state_texts_trimmed(st),
    ensures
        state_texts_trimmed(close_all(st)),
    decreases st.stack.len(),
{
    if st.stack.len() > 0 {
        lemma_close_keeps_text(st);
        lemma_close_all_keeps_text(close_element(st));
    }
}

proof fn lemma_step_keeps_text(st: ReadState, t: Token)
    requires
        state_texts_trimmed(st),
    ensures
        state_texts_trimmed(read_step(st, t)),
{
    match t {
        Token::Start(n, a) => {
            lemma_attr_entries_keep_text(a);
            let ns = read_step(st, t).stack;
            assert forall|i: int| 0 <= i < ns.len() implies entries_texts_trimmed(
                #[trigger] ns[i].attrs,
            ) && entries_texts_trimmed(ns[i].children) by {
                if i < st.stack.len() {
                    assert(ns[i] == st.stack[i]);
                }
            }
        },
        Token::End(_) => lemma_close_keeps_text(st),
        Token::Text(s) => {
            if st.stack.len() == 0 && trimmed(s).len() > 0 {
                lemma_stored_text(s);
            }
            let ns = read_step(st, t).stack;
            if st.stack.len() > 0 {
                assert forall|i: int| 0 <= i < ns.len() implies entries_texts_trimmed(
                    #[trigger] ns[i].attrs,
                ) && entries_texts_trimmed(ns[i].children) by {
                    assert(ns[i].attrs == st.stack[i].attrs);
                    assert(ns[i].children == st.stack[i].children);
                }
            }
        },
        _ => {},
    }
}

proof fn lemma_run_keeps_text(st: ReadState, ts: Seq<Token>)
    requires
        state_texts_trimmed(st),
    ensures
        read_run(st, ts) matches Ok(r) ==> state_texts_trimmed(r),
    decreases ts.len(),
{
    if !st.done {
        match head_token(ts) {
            Token::Fault => {},
            Token::Eof => lemma_close_all_keeps_text(st),
            t => {
                lemma_step_keeps_text(st, t);
                lemma_run_keeps_text(read_step(st, t), ts.drop_first());
            },
        }
    }
}

/// Whatever the events, every `$text` entry of what is read, and a
/// top-level text, is non-empty and trimmed: white-space-only text never
/// appears.
pub proof fn lemma_texts_trimmed(ts: Seq<Token>)
    ensures
        read_tokens(ts) matches Ok(Some(t)) ==> texts_trimmed(t) && (t is Str ==> stored_text(t->Str_0)),
{
    lemma_run_keeps_text(initial_state(), ts);
}

/// An element being read.
struct OpenElement {
    name: String,
    attrs: Vec<(String, Value)>,
    text: String,
    children: Vec<(String, Value)>,
}

impl View for OpenElement {
    type V = Frame;

    closed spec fn view(&self) -> Frame {
        Frame {
            name: self.name@,
            attrs: entries_view(self.attrs@),
            text: self.text@,
            children: entries_view(self.children@),
        }
    }
}

spec fn frames_view(fs: Seq<OpenElement>) -> Seq<Frame> {
    fs.map_values(|f: OpenElement| f@)
}

pub open spec fn option_view(v: Option<Value>) -> Option<Tree> {
    match v {
        Some(t) => Some(t@),
        None => None,
    }
}

/// Builds the value of a document from its events.
struct TreeBuilder {
    stack: Vec<OpenElement>,
    result: Option<Value>,
    done: bool,
}

impl View for TreeBuilder {
    type V = ReadState;

    closed spec fn view(&self) -> ReadState {
        ReadState { stack: frames_view(self.stack@), result: option_view(self.result), done: self.done }
    }
}

/// Attribute pairs as `@`-keyed entries.
pub fn attribute_entries(attrs: &Vec<(String, String)>) -> (r: Vec<(String, Value)>)
    ensures
        entries_view(r@) == attr_entries(crate::markup::attrs_view(attrs@)),
{
    let ghost av = crate::markup::attrs_view(attrs@);
    let mut r: Vec<(String, Value)> = Vec::new();
    let mut i: usize = 0;
    proof {
        assert(av.take(0) =~= Seq::empty());
    }
    while i < attrs.len()
        invariant
            i <= attrs@.len(),
            av == crate::markup::attrs_view(attrs@),
            av.len() == attrs@.len(),
            entries_view(r@) == attr_entries(av.take(i as int)),
        decreases attrs@.len() - i,
    {
        let (k, v) = &attrs[i];
        let at = "@";
        proof {
            reveal_strlit("@");
            assert(at@ =~= seq!['@']);
        }
        let mut key = at.to_owned();
        key.append(k.as_str());
        put_entry(&mut r, key, Value::String(v.clone()));
        proof {
            assert(av.take(i + 1).drop_last() =~= av.take(i as int));
            assert(av[i as int] == (k@, v@));
            assert(av.take(i + 1).last() == av[i as int]);
        }
        i = i + 1;
    }
    proof {
        assert(av.take(i as int) =~= av);
    }
    r
}

/// `entries` with each of `more` inserted in order.
pub fn put_all_entries(entries: &mut Vec<(String, Value)>, more: Vec<(String, Value)>)
    ensures
        entries_view(final(entries)@) == put_all(entries_view(old(entries)@), entries_view(more@)),
{
    let ghost mv = entries_view(more@);
    let ghost base = entries_view(entries@);
    proof {
        crate::value::lemma_entries_view(more@);
        assert(mv.take(0) =~= Seq::empty());
    }
    let mut more = more;
    let total = more.len();
    let ghost n = total as nat;
    let mut i: usize = 0;
    while more.len() > 0
        invariant
            i + more@.len() == n,
            n <= usize::MAX,
            mv.len() == n,
            forall|j: int| 0 <= j < more@.len() ==> #[trigger] mv[i + j] == (more@[j].0@, more@[j].1@),
            entries_view(entries@) == put_all(base, mv.take(i as int)),
        decreases more@.len(),
    {
        let ghost prev = more@;
        let (k, v) = more.remove(0);
        proof {
            assert(mv[i + 0] == (k@, v@));
        }
        put_entry(entries, k, v);
        proof {
            assert(mv.take(i + 1).drop_last() =~= mv.take(i as int));
            assert forall|j: int| 0 <= j < more@.len() implies #[trigger] mv[(i + 1) + j] == (
                more@[j].0@,
                more@[j].1@,
            ) by {
                assert(more@[j] == prev[j + 1]);
                assert(mv[i + (j + 1)] == (prev[j + 1].0@, prev[j + 1].1@));
            }
        }
        i = i + 1;
    }
    proof {
        assert(mv.take(i as int) =~= mv);
    }
}

impl OpenElement {
    /// The object this element is read as.
    fn into_value(self) -> (r: Value)
        ensures
            r@ == element_tree(self@),
    {
        let ghost f = self@;
        let OpenElement { name: _, attrs, text, children } = self;
        let mut entries = attrs;
        let t = trim(text.as_str());
        if t.as_str().unicode_len() > 0 {
            let key = "$text";
            proof {
                reveal_strlit("$text");
                assert(key@ =~= text_key());
            }
            put_entry(&mut entries, key.to_owned(), Value::String(t));
        }
        put_all_entries(&mut entries, children);
        Value::Object(entries)
    }
}

impl TreeBuilder {
    fn new() -> (r: TreeBuilder)
        ensures
            r@ == initial_state(),
    {
        let r = TreeBuilder { stack: Vec::new(), result: None, done: false };
        assert(frames_view(r.stack@) =~= Seq::empty());
        r
    }

    fn open_element(&mut self, name: String, attrs: &Vec<(String, String)>)
        ensures
            final(self)@ == open_element(old(self)@, name@, crate::markup::attrs_view(attrs@)),
    {
        let f = OpenElement {
            name,
            attrs: attribute_entries(attrs),
            text: String::new(),
            children: Vec::new(),
        };
        assert(entries_view(Seq::<(String, Value)>::empty()) =~= Seq::empty());
        self.stack.push(f);
        assert(frames_view(self.stack@) =~= frames_view(old(self).stack@).push(f@));
    }

    fn close_element(&mut self)
        ensures
            final(self)@ == close_element(old(self)@),
    {
        if self.stack.len() == 0 {
            return;
        }
        let f = self.stack.pop().unwrap();
        assert(frames_view(self.stack@) =~= frames_view(old(self).stack@).drop_last());
        let name = f.name.clone();
        let t = f.into_value();
        if self.stack.len() == 0 {
            let mut top: Vec<(String, Value)> = Vec::new();
            top.push((name, t));
            proof {
                crate::value::lemma_entries_view(top@);
                assert(entries_view(top@) =~= seq![(name@, t@)]);
            }
            self.result = Some(Value::Object(top));
            self.done = true;
        } else {
            let ghost rest = self.stack@;
            let mut p = self.stack.pop().unwrap();
            put_entry(&mut p.children, name, t);
            self.stack.push(p);
            assert(frames_view(self.stack@) =~= frames_view(rest).update(
                frames_view(rest).len() - 1,
                Frame { children: put(frames_view(rest).last().children, name@, t@), ..frames_view(rest).last() },
            ));
        }
    }

    fn add_text(&mut self, t: String)
        ensures
            final(self)@ == add_text(old(self)@, t@),
    {
        if self.stack.len() > 0 {
            let mut f = self.stack.pop().unwrap();
            f.text.append(t.as_str());
            self.stack.push(f);
            assert(frames_view(self.stack@) =~= frames_view(old(self).stack@).update(
                frames_view(old(self).stack@).len() - 1,
                Frame { text: frames_view(old(self).stack@).last().text + t@, ..frames_view(old(self).stack@).last() },
            ));
        } else {
            let tt = trim(t.as_str());
            if tt.as_str().unicode_len() > 0 {
                self.result = Some(Value::String(tt));
                self.done = true;
            }
        }
    }

    fn feed(&mut self, ev: MarkupEvent)
        ensures
            final(self)@ == read_step(old(self)@, ev@),
    {
        match ev {
            MarkupEvent::Start(n, a) => self.open_element(n, &a),
            MarkupEvent::End(_) => self.close_element(),
            MarkupEvent::Text(t) => self.add_text(t),
            _ => {},
        }
    }

    fn finish(&mut self)
        ensures
            final(self)@ == close_all(old(self)@),
    {
        while self.stack.len() > 0
            invariant
                close_all(self@) == close_all(old(self)@),
            decreases self.stack@.len(),
        {
            self.close_element();
        }
        self.done = true;
    }
}

proof fn lemma_close_all_done(st: ReadState)
    ensures
        close_all(st).done,
    decreases st.stack.len(),
{
    if st.stack.len() > 0 {
        lemma_close_all_done(close_element(st));
    }
}

/// Reads the value of a document given as its events; a missing end of
/// input is taken as the end of the sequence.
pub fn value_from_events(events: Vec<MarkupEvent>) -> (r: Option<Value>)
    ensures
        read_tokens(events_view(events@)) == Ok::<Option<Tree>, ()>(option_view(r)),
{
    let ghost target = read_run(initial_state(), events_view(events@));
    let mut b = TreeBuilder::new();
    let mut events = events;
    loop
        invariant
            read_run(b@, events_view(events@)) == target,
        ensures
            b@.done,
            target == Ok::<ReadState, ()>(b@),
        decreases events@.len(),
    {
        let ghost st = b@;
        if b.done {
            break;
        }
        if events.len() == 0 {
            b.finish();
            proof {
                lemma_close_all_done(st);
            }
            break;
        }
        let ghost before = events_view(events@);
        let ev = events.remove(0);
        assert(events_view(events@) =~= before.drop_first());
        assert(before[0] == ev@);
        if ev.is_end() {
            b.finish();
            proof {
                lemma_close_all_done(st);
            }
            break;
        }
        b.feed(ev);
    }
    b.result
}

/// Reads markup text into a value: the document's first top-level element
/// as `{tag: object}`, or its leading text; `Value::Null` for a document
/// without content. An element still open at the end of the input is
/// closed there. Fails when any part of the markup cannot be read.
pub fn xml_to_value(xml: &str) -> (r: Result<Value, ConversionError>)
    ensures
        ({
            let (read, failed) = crate::markup::until_end(crate::markup::markup_tokens(xml@, false, true));
            if failed {
                r is Err && r->Err_0 is XmlParse
            } else {
                match read_tokens(read) {
                    Ok(Some(t)) => r matches Ok(v) && v@ == t,
                    _ => r matches Ok(v) && v@ == Tree::Null,
                }
            }
        }),
{
    let mut reader = MarkupReader::open(xml, false, true);
    let (events, failure) = reader.read_all();
    if let Some(e) = failure {
        return Err(ConversionError::XmlParse(e.to_string()));
    }
    match value_from_events(events) {
        Some(v) => Ok(v),
        None => Ok(Value::Null),
    }
}

} // verus!
