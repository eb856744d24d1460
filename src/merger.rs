use vstd::prelude::*;
use crate::error::ConversionError;
use crate::markup::{MarkupEvent, MarkupReader, Token, head_token, markup_tokens, until_end};
use crate::reader::{
    attr_entries, attribute_entries, entries_texts_trimmed, lemma_attr_entries_keep_text,
    lemma_put_all_keeps_text, lemma_put_keeps_text, lemma_stored_text, put_all, put_all_entries,
    stored_text, texts_trimmed,
};
use crate::text::{trim, trimmed};
use crate::value::{
    Tree, Value, duplicate_entries, entries_view, find, items_view, lemma_entries_view,
    lemma_items_view, put, put_entry, text_eq,
};
use crate::text::starts_with_char;
use crate::writer::{is_attr_key, text_key};

verus! {

broadcast use {vstd::std_specs::vec::group_vec_axioms, vstd::seq::group_seq_axioms};

pub open spec fn sysmon_tag() -> Seq<char> {
    seq!['S', 'y', 's', 'm', 'o', 'n']
}

pub open spec fn schema_attr() -> Seq<char> {
    seq!['s', 'c', 'h', 'e', 'm', 'a', 'v', 'e', 'r', 's', 'i', 'o', 'n']
}

pub open spec fn schema_key() -> Seq<char> {
    seq!['@'] + schema_attr()
}

pub open spec fn filtering_tag() -> Seq<char> {
    seq!['E', 'v', 'e', 'n', 't', 'F', 'i', 'l', 't', 'e', 'r', 'i', 'n', 'g']
}

pub open spec fn group_tag() -> Seq<char> {
    seq!['R', 'u', 'l', 'e', 'G', 'r', 'o', 'u', 'p']
}

pub open spec fn process_create_tag() -> Seq<char> {
    seq!['P', 'r', 'o', 'c', 'e', 's', 's', 'C', 'r', 'e', 'a', 't', 'e']
}

pub open spec fn image_tag() -> Seq<char> {
    seq!['I', 'm', 'a', 'g', 'e']
}

/// The schema version a merged document gets when no input had one.
pub open spec fn fallback_version() -> Seq<char> {
    seq!['4', '.', '3', '0']
}

/// What a merge run has collected so far.
pub struct MergeModel {
    pub schema_version: Option<Seq<char>>,
    pub rules: Seq<Tree>,
    pub processed: nat,
    pub last_file: Option<Seq<char>>,
}

/// An element of a markup document being walked.
pub struct WalkFrame {
    pub name: Seq<char>,
    pub attrs: Seq<(Seq<char>, Tree)>,
    pub content: Seq<(Seq<char>, Tree)>,
}

/// Where the walk over a markup document stands.
pub struct Walk {
    pub stack: Seq<WalkFrame>,
    pub in_filtering: bool,
    pub schema_version: Option<Seq<char>>,
    pub rules: Seq<Tree>,
}

/// The value of the first attribute named `k`.
pub open spec fn attr_value(attrs: Seq<(Seq<char>, Seq<char>)>, k: Seq<char>) -> Option<Seq<char>>
    decreases attrs.len(),
{
    if attrs.len() == 0 {
        None
    } else if attrs[0].0 == k {
        Some(attrs[0].1)
    } else {
        attr_value(attrs.drop_first(), k)
    }
}

/// The `@`-entries of an object, inserted in order.
pub open spec fn group_attrs(es: Seq<(Seq<char>, Tree)>) -> Seq<(Seq<char>, Tree)>
    decreases es.len(),
{
    if es.len() == 0 {
        Seq::empty()
    } else if is_attr_key(es.last().0) {
        put(group_attrs(es.drop_last()), es.last().0, es.last().1)
    } else {
        group_attrs(es.drop_last())
    }
}

/// One rule record per event entry of a rule group (an entry that is
/// neither an attribute nor a nested `RuleGroup`): the group's attributes
/// together with that single entry.
pub open spec fn split_group(attrs: Seq<(Seq<char>, Tree)>, es: Seq<(Seq<char>, Tree)>) -> Seq<Tree>
    decreases es.len(),
{
    if es.len() == 0 {
        Seq::empty()
    } else {
        let rest = split_group(attrs, es.drop_last());
        let (k, v) = es.last();
        if !is_attr_key(k) && k != group_tag() {
            rest.push(Tree::Object(put(attrs, k, v)))
        } else {
            rest
        }
    }
}

pub open spec fn group_records(es: Seq<(Seq<char>, Tree)>) -> Seq<Tree> {
    split_group(group_attrs(es), es)
}

pub open spec fn walk_start(w: Walk, name: Seq<char>, attrs: Seq<(Seq<char>, Seq<char>)>) -> Walk {
    Walk {
        stack: w.stack.push(WalkFrame { name, attrs: attr_entries(attrs), content: Seq::empty() }),
        in_filtering: w.in_filtering || name == filtering_tag(),
        schema_version: if w.schema_version is None && name == sysmon_tag() {
            attr_value(attrs, schema_attr())
        } else {
            w.schema_version
        },
        rules: w.rules,
    }
}

/// Text that is not white space only becomes the innermost element's
/// `$text`, trimmed, replacing earlier text.
pub open spec fn walk_text(w: Walk, t: Seq<char>) -> Walk {
    if w.stack.len() > 0 && trimmed(t).len() > 0 {
        let f = w.stack.last();
        Walk {
            stack: w.stack.update(
                w.stack.len() - 1,
                WalkFrame { content: put(f.content, text_key(), Tree::Str(trimmed(t))), ..f },
            ),
            ..w
        }
    } else {
        w
    }
}

/// Closing an element: a `RuleGroup` inside `EventFiltering` yields its rule
/// records, and the element goes into its parent under its tag.
pub open spec fn walk_end(w: Walk, end: Seq<char>) -> Walk {
    let w2 = if w.stack.len() == 0 {
        w
    } else {
        let f = w.stack.last();
        let rest = w.stack.drop_last();
        let obj = put_all(f.attrs, f.content);
        let rules = if f.name == group_tag() && w.in_filtering {
            w.rules + group_records(obj)
        } else {
            w.rules
        };
        let stack = if rest.len() > 0 {
            let p = rest.last();
            rest.update(
                rest.len() - 1,
                WalkFrame { content: put(p.content, f.name, Tree::Object(obj)), ..p },
            )
        } else {
            rest
        };
        Walk { stack, rules, ..w }
    };
    if end == filtering_tag() {
        Walk { in_filtering: false, ..w2 }
    } else {
        w2
    }
}

pub open spec fn walk_step(w: Walk, t: Token) -> Walk {
    match t {
        Token::Start(n, a) => walk_start(w, n, a),
        Token::Text(s) => walk_text(w, s),
        Token::End(n) => walk_end(w, n),
        _ => w,
    }
}

/// Walks a whole document; the flag tells whether a read failed, in which
/// case the walk stops there.
pub open spec fn walk_run(w: Walk, ts: Seq<Token>) -> (Walk, bool)
    decreases ts.len(),
{
    match head_token(ts) {
        Token::Fault => (w, true),
        Token::Eof => (w, false),
        t => walk_run(walk_step(w, t), ts.drop_first()),
    }
}

pub open spec fn walk_init(m: MergeModel) -> Walk {
    Walk { stack: Seq::empty(), in_filtering: false, schema_version: m.schema_version, rules: m.rules }
}

/// Ingesting a markup document from `path` whose schema check gave
/// `accepted`: on acceptance its rule records are collected, and the schema
/// version is captured if none was yet. A document that fails to read
/// leaves what was collected before the failure and is not counted.
pub open spec fn ingest_markup(m: MergeModel, path: Seq<char>, text: Seq<char>, accepted: bool) -> MergeModel {
    ingest_events(m, path, markup_tokens(text, false, true), accepted)
}

/// Ingesting a markup document given as its events.
pub open spec fn ingest_events(m: MergeModel, path: Seq<char>, ts: Seq<Token>, accepted: bool) -> MergeModel {
    let m1 = MergeModel { last_file: Some(path), ..m };
    if !accepted {
        m1
    } else {
        let (w, failed) = walk_run(walk_init(m), ts);
        MergeModel {
            schema_version: w.schema_version,
            rules: w.rules,
            processed: if failed {
                m.processed
            } else {
                m.processed + 1
            },
            ..m1
        }
    }
}

/// Ingesting a structured document: its `EventFiltering.RuleGroup` is
/// collected as it stands (each item, if it is a list), and its
/// `@schemaversion` is captured if none was yet.
pub open spec fn ingest_structured(m: MergeModel, doc: Tree) -> MergeModel {
    match doc {
        Tree::Object(es) => {
            let version = if m.schema_version is None {
                match find(es, schema_key()) {
                    Some(Tree::Str(v)) => Some(v),
                    _ => None,
                }
            } else {
                m.schema_version
            };
            let found = match find(es, filtering_tag()) {
                Some(Tree::Object(fs)) => find(fs, group_tag()),
                _ => None,
            };
            let rules = match found {
                Some(Tree::Array(items)) => m.rules + items,
                Some(g) => m.rules.push(g),
                None => m.rules,
            };
            MergeModel { schema_version: version, rules, processed: m.processed + 1, ..m }
        },
        _ => m,
    }
}

/// The process-creation blocks of the collected rules, in order.
pub open spec fn process_blocks(rules: Seq<Tree>) -> Seq<Tree>
    decreases rules.len(),
{
    if rules.len() == 0 {
        Seq::empty()
    } else {
        let rest = process_blocks(rules.drop_last());
        match rules.last() {
            Tree::Object(es) => match find(es, process_create_tag()) {
                Some(pc) => rest.push(pc),
                None => rest,
            },
            _ => rest,
        }
    }
}

/// The image conditions of process-creation blocks, in order.
pub open spec fn image_conditions(blocks: Seq<Tree>) -> Seq<Tree>
    decreases blocks.len(),
{
    if blocks.len() == 0 {
        Seq::empty()
    } else {
        let rest = image_conditions(blocks.drop_last());
        match blocks.last() {
            Tree::Object(es) => match find(es, image_tag()) {
                Some(img) => rest.push(img),
                None => rest,
            },
            _ => rest,
        }
    }
}

pub open spec fn str_entry(k: Seq<char>, v: Seq<char>) -> (Seq<char>, Tree) {
    (k, Tree::Str(v))
}

/// The one consolidated rule group: all image conditions under a single
/// process-creation block that includes on match.
pub open spec fn merged_group(rules: Seq<Tree>) -> Tree {
    Tree::Object(
        seq![
            str_entry(seq!['@', 'n', 'a', 'm', 'e'], seq!['M', 'e', 'r', 'g', 'e', 'd', 'R', 'u', 'l', 'e', 's']),
            str_entry(seq!['@', 'g', 'r', 'o', 'u', 'p', 'R', 'e', 'l', 'a', 't', 'i', 'o', 'n'], seq!['o', 'r']),
            (
                process_create_tag(),
                Tree::Object(
                    seq![
                        str_entry(seq!['@', 'o', 'n', 'm', 'a', 't', 'c', 'h'], seq!['i', 'n', 'c', 'l', 'u', 'd', 'e']),
                        (image_tag(), Tree::Array(image_conditions(process_blocks(rules)))),
                    ],
                ),
            ),
        ],
    )
}

/// The merged document: the first schema version seen (or the fallback),
/// and, when some collected rule has a process-creation block, an
/// `EventFiltering` with the consolidated rule group. Other event types are
/// not carried over.
pub open spec fn merged_tree(m: MergeModel) -> Tree {
    let version = match m.schema_version {
        Some(v) => v,
        None => fallback_version(),
    };
    let root = seq![str_entry(schema_key(), version)];
    if process_blocks(m.rules).len() > 0 {
        Tree::Object(
            root.push((filtering_tag(), Tree::Object(seq![(group_tag(), merged_group(m.rules))]))),
        )
    } else {
        Tree::Object(root)
    }
}

proof fn lemma_walk_keeps_version(w: Walk, ts: Seq<Token>)
    requires
        w.schema_version is Some,
    ensures
        walk_run(w, ts).0.schema_version == w.schema_version,
    decreases ts.len(),
{
    match head_token(ts) {
        Token::Fault => {},
        Token::Eof => {},
        t => lemma_walk_keeps_version(walk_step(w, t), ts.drop_first()),
    }
}

/// Once a schema version has been captured, ingesting a further document
/// of either form leaves it as it is: the first version seen wins.
pub proof fn lemma_version_kept(
    m: MergeModel,
    path: Seq<char>,
    text: Seq<char>,
    accepted: bool,
    doc: Tree,
)
    requires
        m.schema_version is Some,
    ensures
        ingest_markup(m, path, text, accepted).schema_version == m.schema_version,
        ingest_structured(m, doc).schema_version == m.schema_version,
{
    lemma_walk_keeps_version(walk_init(m), markup_tokens(text, false, true));
}

/// Of two structured documents ingested in turn at the start of a run, the
/// first one's `@schemaversion` is the one kept.
pub proof fn lemma_first_version_wins(m: MergeModel, first: Seq<(Seq<char>, Tree)>, v: Seq<char>, second: Tree)
    requires
        m.schema_version is None,
        find(first, schema_key()) == Some(Tree::Str(v)),
    ensures
        ingest_structured(ingest_structured(m, Tree::Object(first)), second).schema_version == Some(v),
{
    lemma_version_kept(ingest_structured(m, Tree::Object(first)), Seq::empty(), Seq::empty(), false, second);
}

/// A run that collected no process-creation rule (no document at all, or
/// none with such a rule) yields a document with only its schema version:
/// no `EventFiltering`.
pub proof fn lemma_no_rules_no_filtering(m: MergeModel)
    requires
        process_blocks(m.rules).len() == 0,
    ensures
        merged_tree(m) is Object,
        merged_tree(m)->Object_0.len() == 1,
        merged_tree(m)->Object_0[0].0 == schema_key(),
        find(merged_tree(m)->Object_0, filtering_tag()) is None,
{
    let es = merged_tree(m)->Object_0;
    assert(schema_key() != filtering_tag()) by {
        assert(schema_key()[0] != filtering_tag()[0]);
    }
    crate::value::lemma_key_index(es, filtering_tag());
    assert(es.drop_first().len() == 0);
}

proof fn lemma_walk_until_end(w: Walk, ts: Seq<Token>)
    ensures
        walk_run(w, ts) == (walk_run(w, until_end(ts).0).0, until_end(ts).1),
        !walk_run(w, until_end(ts).0).1,
    decreases ts.len(),
{
    match head_token(ts) {
        Token::Eof => {},
        Token::Fault => {},
        t => {
            let r = ts.drop_first();
            lemma_walk_until_end(walk_step(w, t), r);
            let p = seq![t] + until_end(r).0;
            assert(p.drop_first() =~= until_end(r).0);
            assert(head_token(p) == t);
        },
    }
}

/// A walk over events that end without a failure reports no failure.
proof fn lemma_walk_ends(w: Walk, ts: Seq<Token>)
    ensures
        !walk_run(w, ts).1 || exists|i: int| 0 <= i < ts.len() && ts[i] is Fault,
    decreases ts.len(),
{
    match head_token(ts) {
        Token::Eof => {},
        Token::Fault => {
            assert(ts[0] is Fault);
        },
        t => {
            lemma_walk_ends(walk_step(w, t), ts.drop_first());
            if walk_run(w, ts).1 {
                let i = choose|i: int| 0 <= i < ts.drop_first().len() && ts.drop_first()[i] is Fault;
                assert(ts[i + 1] == ts.drop_first()[i]);
            }
        },
    }
}

/// Every tree held by a walk has only stored `$text` entries, and so has
/// every collected rule.
pub open spec fn walk_texts_trimmed(w: Walk) -> bool {
    &&& forall|i: int|
        0 <= i < w.stack.len() ==> entries_texts_trimmed(#[trigger] w.stack[i].attrs)
            && entries_texts_trimmed(w.stack[i].content)
    &&& forall|i: int| 0 <= i < w.rules.len() ==> texts_trimmed(#[trigger] w.rules[i])
}

proof fn lemma_group_attrs_trimmed(es: Seq<(Seq<char>, Tree)>)
    requires
        entries_texts_trimmed(es),
    ensures
        entries_texts_trimmed(group_attrs(es)),
    decreases es.len(),
{
    if es.len() > 0 {
        let d = es.drop_last();
        assert(entries_texts_trimmed(d)) by {
            assert forall|i: int| 0 <= i < d.len() implies {
                &&& (d[i].0 == text_key() && d[i].1 is Str ==> stored_text(d[i].1->Str_0))
                &&& texts_trimmed(#[trigger] d[i].1)
            } by {
                assert(d[i] == es[i]);
                assert(texts_trimmed(es[i].1));
            }
        }
        lemma_group_attrs_trimmed(d);
        if is_attr_key(es.last().0) {
            assert(texts_trimmed(es[es.len() - 1].1));
            lemma_put_keeps_text(group_attrs(d), es.last().0, es.last().1);
        }
    }
}

proof fn lemma_split_trimmed(attrs: Seq<(Seq<char>, Tree)>, es: Seq<(Seq<char>, Tree)>)
    requires
        entries_texts_trimmed(attrs),
        entries_texts_trimmed(es),
    ensures
        forall|i: int| 0 <= i < split_group(attrs, es).len() ==> texts_trimmed(#[trigger] split_group(attrs, es)[i]),
    decreases es.len(),
{
    if es.len() > 0 {
        let d = es.drop_last();
        assert(entries_texts_trimmed(d)) by {
            assert forall|i: int| 0 <= i < d.len() implies {
                &&& (d[i].0 == text_key() && d[i].1 is Str ==> stored_text(d[i].1->Str_0))
                &&& texts_trimmed(#[trigger] d[i].1)
            } by {
                assert(d[i] == es[i]);
                assert(texts_trimmed(es[i].1));
            }
        }
        lemma_split_trimmed(attrs, d);
        let (k, v) = es.last();
        if !is_attr_key(k) && k != group_tag() {
            assert(texts_trimmed(es[es.len() - 1].1));
            lemma_put_keeps_text(attrs, k, v);
            let r = split_group(attrs, es);
            assert(r == split_group(attrs, d).push(Tree::Object(put(attrs, k, v))));
            assert forall|i: int| 0 <= i < r.len() implies texts_trimmed(#[trigger] r[i]) by {
                if i < r.len() - 1 {
                    assert(r[i] == split_group(attrs, d)[i]);
                }
            }
        } else {
            assert(split_group(attrs, es) == split_group(attrs, d));
        }
    }
}

proof fn lemma_walk_step_trimmed(w: Walk, t: Token)
    requires
        walk_texts_trimmed(w),
    ensures
        walk_texts_trimmed(walk_step(w, t)),
{
    match t {
        Token::Start(n, a) => {
            lemma_attr_entries_keep_text(a);
            let ns = walk_step(w, t).stack;
            assert(entries_texts_trimmed(Seq::empty()));
            assert forall|i: int| 0 <= i < ns.len() implies entries_texts_trimmed(#[trigger] ns[i].attrs)
                && entries_texts_trimmed(ns[i].content) by {
                if i < w.stack.len() {
                    assert(ns[i] == w.stack[i]);
                }
            }
        },
        Token::Text(s) => {
            if w.stack.len() > 0 && trimmed(s).len() > 0 {
                let f = w.stack.last();
                assert(entries_texts_trimmed(w.stack[w.stack.len() - 1].content));
                lemma_stored_text(s);
                lemma_put_keeps_text(f.content, text_key(), Tree::Str(trimmed(s)));
                let ns = walk_step(w, t).stack;
                assert forall|i: int| 0 <= i < ns.len() implies entries_texts_trimmed(#[trigger] ns[i].attrs)
                    && entries_texts_trimmed(ns[i].content) by {
                    if i < w.stack.len() - 1 {
                        assert(ns[i] == w.stack[i]);
                    } else {
                        assert(ns[i].attrs == w.stack[i].attrs);
                    }
                }
            }
        },
        Token::End(n) => {
            if w.stack.len() > 0 {
                let f = w.stack.last();
                let rest = w.stack.drop_last();
                assert(entries_texts_trimmed(w.stack[w.stack.len() - 1].attrs));
                lemma_put_all_keeps_text(f.attrs, f.content);
                let obj = put_all(f.attrs, f.content);
                lemma_group_attrs_trimmed(obj);
                lemma_split_trimmed(group_attrs(obj), obj);
                let w2 = walk_step(w, t);
                let recs = group_records(obj);
                assert forall|i: int| 0 <= i < w2.rules.len() implies texts_trimmed(#[trigger] w2.rules[i]) by {
                    if i < w.rules.len() {
                        assert(w2.rules[i] == w.rules[i]);
                    } else {
                        assert(w2.rules[i] == recs[i - w.rules.len()]);
                    }
                }
                if rest.len() > 0 {
                    let p = rest.last();
                    assert(w.stack[rest.len() - 1] == p);
                    assert(entries_texts_trimmed(p.content));
                    assert(texts_trimmed(Tree::Object(obj)));
                    lemma_put_keeps_text(p.content, f.name, Tree::Object(obj));
                    let ns = w2.stack;
                    assert(ns == rest.update(
                        rest.len() - 1,
                        WalkFrame { content: put(p.content, f.name, Tree::Object(obj)), ..p },
                    ));
                    assert forall|i: int| 0 <= i < ns.len() implies entries_texts_trimmed(#[trigger] ns[i].attrs)
                        && entries_texts_trimmed(ns[i].content) by {
                        if i < rest.len() - 1 {
                            assert(ns[i] == w.stack[i]);
                        } else {
                            assert(ns[i].attrs == p.attrs);
                        }
                    }
                } else {
                    assert(w2.stack.len() == 0);
                }
            }
        },
        _ => {},
    }
}

proof fn lemma_walk_run_trimmed(w: Walk, ts: Seq<Token>)
    requires
        walk_texts_trimmed(w),
    ensures
        walk_texts_trimmed(walk_run(w, ts).0),
    decreases ts.len(),
{
    match head_token(ts) {
        Token::Fault => {},
        Token::Eof => {},
        t => {
            lemma_walk_step_trimmed(w, t);
            lemma_walk_run_trimmed(walk_step(w, t), ts.drop_first());
        },
    }
}

/// Rule records collected from markup never hold white-space-only text:
/// every `$text` in them, at any depth, is non-empty and trimmed.
pub proof fn lemma_markup_rules_trimmed(m: MergeModel, path: Seq<char>, text: Seq<char>, accepted: bool)
    requires
        forall|i: int| 0 <= i < m.rules.len() ==> texts_trimmed(#[trigger] m.rules[i]),
    ensures
        forall|i: int|
            0 <= i < ingest_markup(m, path, text, accepted).rules.len() ==> texts_trimmed(
                #[trigger] ingest_markup(m, path, text, accepted).rules[i],
            ),
{
    lemma_walk_run_trimmed(walk_init(m), markup_tokens(text, false, true));
}

/// The error text for a document at `path` that the schema check could not
/// parse.
pub open spec fn parse_failure_text(path: Seq<char>, msg: Seq<char>) -> Seq<char> {
    "Parse error in "@ + path + ": "@ + msg
}

/// The error text for a document at `path` that breaks the schema's rules.
pub open spec fn validation_failure_text(path: Seq<char>, msg: Seq<char>) -> Seq<char> {
    "Validation error in "@ + path + ": "@ + msg
}

fn failure_text(lead: &str, path: &String, msg: &String) -> (r: String)
    ensures
        r@ == lead@ + path@ + ": "@ + msg@,
{
    let mut s = lead.to_owned();
    s.append(path.as_str());
    s.append(": ");
    s.append(msg.as_str());
    s
}

/// The outcome of the external schema check of a markup document.
#[derive(Debug)]
pub enum SchemaVerdict {
    Accepted,
    /// The document could not be parsed as a configuration.
    Unparsable(String),
    /// The document parsed but breaks the schema's rules.
    Invalid(String),
}

fn literal(s: &'static str) -> (r: String)
    ensures
        r@ == s@,
{
    s.to_owned()
}

fn sysmon_str() -> (r: &'static str)
    ensures
        r@ == sysmon_tag(),
{
    let s = "Sysmon";
    proof {
        reveal_strlit("Sysmon");
        assert(s@ =~= sysmon_tag());
    }
    s
}

fn schema_attr_str() -> (r: &'static str)
    ensures
        r@ == schema_attr(),
{
    let s = "schemaversion";
    proof {
        reveal_strlit("schemaversion");
        assert(s@ =~= schema_attr());
    }
    s
}

fn schema_key_str() -> (r: &'static str)
    ensures
        r@ == schema_key(),
{
    let s = "@schemaversion";
    proof {
        reveal_strlit("@schemaversion");
        assert(s@ =~= schema_key());
    }
    s
}

fn filtering_str() -> (r: &'static str)
    ensures
        r@ == filtering_tag(),
{
    let s = "EventFiltering";
    proof {
        reveal_strlit("EventFiltering");
        assert(s@ =~= filtering_tag());
    }
    s
}

fn group_str() -> (r: &'static str)
    ensures
        r@ == group_tag(),
{
    let s = "RuleGroup";
    proof {
        reveal_strlit("RuleGroup");
        assert(s@ =~= group_tag());
    }
    s
}

fn process_create_str() -> (r: &'static str)
    ensures
        r@ == process_create_tag(),
{
    let s = "ProcessCreate";
    proof {
        reveal_strlit("ProcessCreate");
        assert(s@ =~= process_create_tag());
    }
    s
}

fn image_str() -> (r: &'static str)
    ensures
        r@ == image_tag(),
{
    let s = "Image";
    proof {
        reveal_strlit("Image");
        assert(s@ =~= image_tag());
    }
    s
}

fn text_key_str() -> (r: &'static str)
    ensures
        r@ == text_key(),
{
    let s = "$text";
    proof {
        reveal_strlit("$text");
        assert(s@ =~= text_key());
    }
    s
}

/// Appends deep copies of `more` to `rules`.
fn append_values(rules: &mut Vec<Value>, more: &Vec<Value>)
    ensures
        items_view(final(rules)@) == items_view(old(rules)@) + items_view(more@),
{
    proof {
        lemma_items_view(old(rules)@);
        lemma_items_view(more@);
    }
    let mut i: usize = 0;
    while i < more.len()
        invariant
            i <= more@.len(),
            items_view(rules@) == items_view(old(rules)@) + items_view(more@).take(i as int),
        decreases more@.len() - i,
    {
        let ghost before = rules@;
        rules.push(more[i].duplicate());
        proof {
            lemma_items_view(before);
            lemma_items_view(rules@);
            lemma_items_view(more@);
            assert(items_view(rules@) =~= items_view(before).push(more@[i as int]@));
            assert(items_view(more@).take(i + 1) =~= items_view(more@).take(i as int).push(
                more@[i as int]@,
            ));
        }
        i = i + 1;
    }
    proof {
        lemma_items_view(more@);
        assert(items_view(more@).take(i as int) =~= items_view(more@));
    }
}

/// The rule records of a rule group object.
fn group_records_of(obj: &Vec<(String, Value)>) -> (r: Vec<Value>)
    ensures
        items_view(r@) == group_records(entries_view(obj@)),
{
    let ghost es = entries_view(obj@);
    proof {
        lemma_entries_view(obj@);
        assert(es.take(0) =~= Seq::empty());
    }
    let mut attrs: Vec<(String, Value)> = Vec::new();
    let mut i: usize = 0;
    while i < obj.len()
        invariant
            i <= obj@.len(),
            es == entries_view(obj@),
            es.len() == obj@.len(),
            forall|j: int| 0 <= j < es.len() ==> #[trigger] es[j] == (obj@[j].0@, obj@[j].1@),
            entries_view(attrs@) == group_attrs(es.take(i as int)),
        decreases obj@.len() - i,
    {
        let (k, v) = &obj[i];
        if starts_with_char(k.as_str(), '@') {
            put_entry(&mut attrs, k.clone(), v.duplicate());
        }
        proof {
            assert(es.take(i + 1).drop_last() =~= es.take(i as int));
        }
        i = i + 1;
    }
    proof {
        assert(es.take(i as int) =~= es);
    }
    let ghost ga = group_attrs(es);
    let mut out: Vec<Value> = Vec::new();
    let mut i: usize = 0;
    proof {
        lemma_items_view(out@);
    }
    while i < obj.len()
        invariant
            i <= obj@.len(),
            es == entries_view(obj@),
            es.len() == obj@.len(),
            forall|j: int| 0 <= j < es.len() ==> #[trigger] es[j] == (obj@[j].0@, obj@[j].1@),
            entries_view(attrs@) == ga,
            items_view(out@) == split_group(ga, es.take(i as int)),
        decreases obj@.len() - i,
    {
        let (k, v) = &obj[i];
        let ghost before = out@;
        if !starts_with_char(k.as_str(), '@') && !text_eq(k.as_str(), group_str()) {
            let mut rec = duplicate_entries(&attrs);
            put_entry(&mut rec, k.clone(), v.duplicate());
            out.push(Value::Object(rec));
            proof {
                lemma_items_view(before);
                lemma_items_view(out@);
                assert(items_view(out@) =~= items_view(before).push(out@.last()@));
            }
        }
        proof {
            assert(es.take(i + 1).drop_last() =~= es.take(i as int));
        }
        i = i + 1;
    }
    proof {
        assert(es.take(i as int) =~= es);
    }
    out
}

/// Merges the rule content of many configuration documents into one.
pub struct ConfigMerger {
    schema_version: Option<String>,
    current_rules: Vec<Value>,
    last_processed_file: Option<String>,
    processed_files_count: usize,
}

pub open spec fn opt_text(o: Option<String>) -> Option<Seq<char>> {
    match o {
        Some(s) => Some(s@),
        None => None,
    }
}

impl View for ConfigMerger {
    type V = MergeModel;

    closed spec fn view(&self) -> MergeModel {
        MergeModel {
            schema_version: opt_text(self.schema_version),
            rules: items_view(self.current_rules@),
            processed: self.processed_files_count as nat,
            last_file: opt_text(self.last_processed_file),
        }
    }
}

/// An element of a markup document being walked.
struct WalkElement {
    name: String,
    attrs: Vec<(String, Value)>,
    content: Vec<(String, Value)>,
}

impl View for WalkElement {
    type V = WalkFrame;

    closed spec fn view(&self) -> WalkFrame {
        WalkFrame { name: self.name@, attrs: entries_view(self.attrs@), content: entries_view(self.content@) }
    }
}

spec fn walk_frames(fs: Seq<WalkElement>) -> Seq<WalkFrame> {
    fs.map_values(|f: WalkElement| f@)
}

/// The walk state held by a merger and a stack of open elements.
struct Walker {
    stack: Vec<WalkElement>,
    in_filtering: bool,
}

spec fn walk_of(k: &Walker, m: &ConfigMerger) -> Walk {
    Walk {
        stack: walk_frames(k.stack@),
        in_filtering: k.in_filtering,
        schema_version: m@.schema_version,
        rules: m@.rules,
    }
}

/// The value of the first attribute named `key`.
fn find_attr(attrs: &Vec<(String, String)>, key: &str) -> (r: Option<String>)
    ensures
        opt_text(r) == attr_value(crate::markup::attrs_view(attrs@), key@),
{
    let ghost av = crate::markup::attrs_view(attrs@);
    let mut i: usize = 0;
    proof {
        assert(av.skip(0) =~= av);
    }
    while i < attrs.len()
        invariant
            i <= attrs@.len(),
            av == crate::markup::attrs_view(attrs@),
            attr_value(av.skip(i as int), key@) == attr_value(av, key@),
        decreases attrs@.len() - i,
    {
        proof {
            assert(av.skip(i as int)[0] == av[i as int]);
            assert(av.skip(i as int).drop_first() =~= av.skip(i + 1));
        }
        if text_eq(attrs[i].0.as_str(), key) {
            return Some(attrs[i].1.clone());
        }
        i = i + 1;
    }
    proof {
        assert(av.skip(i as int) =~= Seq::empty());
    }
    None
}

impl Walker {
    fn start(&mut self, m: &mut ConfigMerger, name: String, attrs: &Vec<(String, String)>)
        ensures
            walk_of(final(self), final(m)) == walk_start(walk_of(old(self), old(m)), name@, crate::markup::attrs_view(attrs@)),
            final(m).last_processed_file == old(m).last_processed_file,
            final(m).processed_files_count == old(m).processed_files_count,
    {
        if m.schema_version.is_none() && text_eq(name.as_str(), sysmon_str()) {
            m.schema_version = find_attr(attrs, schema_attr_str());
        }
        if text_eq(name.as_str(), filtering_str()) {
            self.in_filtering = true;
        }
        let f = WalkElement { name, attrs: attribute_entries(attrs), content: Vec::new() };
        assert(entries_view(Seq::<(String, Value)>::empty()) =~= Seq::empty());
        self.stack.push(f);
        assert(walk_frames(self.stack@) =~= walk_frames(old(self).stack@).push(f@));
    }

    fn text(&mut self, m: &ConfigMerger, t: String)
        ensures
            walk_of(final(self), m) == walk_text(walk_of(old(self), m), t@),
    {
        if self.stack.len() > 0 {
            let tt = trim(t.as_str());
            if tt.as_str().unicode_len() > 0 {
                let ghost tv = tt@;
                let mut f = self.stack.pop().unwrap();
                put_entry(&mut f.content, text_key_str().to_owned(), Value::String(tt));
                self.stack.push(f);
                assert(walk_frames(self.stack@) =~= walk_frames(old(self).stack@).update(
                    walk_frames(old(self).stack@).len() - 1,
                    WalkFrame {
                        content: put(walk_frames(old(self).stack@).last().content, text_key(), Tree::Str(tv)),
                        ..walk_frames(old(self).stack@).last()
                    },
                ));
            }
        }
    }

    fn end(&mut self, m: &mut ConfigMerger, end: String)
        ensures
            walk_of(final(self), final(m)) == walk_end(walk_of(old(self), old(m)), end@),
            final(m).last_processed_file == old(m).last_processed_file,
            final(m).processed_files_count == old(m).processed_files_count,
            final(m).schema_version == old(m).schema_version,
    {
        if self.stack.len() > 0 {
            let ghost old_frames = walk_frames(self.stack@);
            let f = self.stack.pop().unwrap();
            assert(walk_frames(self.stack@) =~= old_frames.drop_last());
            let WalkElement { name, attrs, content } = f;
            let mut obj = attrs;
            put_all_entries(&mut obj, content);
            if text_eq(name.as_str(), group_str()) && self.in_filtering {
                let records = group_records_of(&obj);
                append_values(&mut m.current_rules, &records);
            }
            if self.stack.len() > 0 {
                let ghost rest = walk_frames(self.stack@);
                let ghost ov = entries_view(obj@);
                let ghost nv = name@;
                let mut p = self.stack.pop().unwrap();
                put_entry(&mut p.content, name, Value::Object(obj));
                self.stack.push(p);
                assert(walk_frames(self.stack@) =~= rest.update(
                    rest.len() - 1,
                    WalkFrame { content: put(rest.last().content, nv, Tree::Object(ov)), ..rest.last() },
                ));
            }
        }
        if text_eq(end.as_str(), filtering_str()) {
            self.in_filtering = false;
        }
    }
}

impl ConfigMerger {
    pub fn new() -> (r: ConfigMerger)
        ensures
            r@ == (MergeModel { schema_version: None, rules: Seq::empty(), processed: 0, last_file: None }),
    {
        let r = ConfigMerger {
            schema_version: None,
            current_rules: Vec::new(),
            last_processed_file: None,
            processed_files_count: 0,
        };
        proof {
            lemma_items_view(r.current_rules@);
            assert(items_view(r.current_rules@) =~= Seq::empty());
        }
        r
    }

    pub fn current_rules_count(&self) -> (r: usize)
        ensures
            r == self@.rules.len(),
    {
        proof {
            lemma_items_view(self.current_rules@);
        }
        self.current_rules.len()
    }

    pub fn last_processed_file(&self) -> (r: Option<&String>)
        ensures
            match r {
                Some(p) => self@.last_file == Some(p@),
                None => self@.last_file is None,
            },
    {
        self.last_processed_file.as_ref()
    }

    pub fn processed_files_count(&self) -> (r: usize)
        ensures
            r == self@.processed,
    {
        self.processed_files_count
    }

    pub fn schema_version(&self) -> (r: Option<&String>)
        ensures
            match r {
                Some(v) => self@.schema_version == Some(v@),
                None => self@.schema_version is None,
            },
    {
        self.schema_version.as_ref()
    }
}

pub open spec fn verdict_accepts(v: SchemaVerdict) -> bool {
    v is Accepted
}

impl ConfigMerger {
    /// Records `path` as the file being processed and gives the error for
    /// a document that the schema check refused.
    fn refusal(&mut self, path: String, verdict: &SchemaVerdict) -> (r: Option<ConversionError>)
        ensures
            final(self)@ == (MergeModel { last_file: Some(path@), ..old(self)@ }),
            match *verdict {
                SchemaVerdict::Accepted => r is None,
                SchemaVerdict::Unparsable(msg) => r matches Some(ConversionError::ParserError(e))
                    && e@ == parse_failure_text(path@, msg@),
                SchemaVerdict::Invalid(msg) => r matches Some(ConversionError::ValidationError(e))
                    && e@ == validation_failure_text(path@, msg@),
            },
    {
        let failure = match verdict {
            SchemaVerdict::Unparsable(msg) => Some(ConversionError::ParserError(
                failure_text("Parse error in ", &path, msg),
            )),
            SchemaVerdict::Invalid(msg) => Some(ConversionError::ValidationError(
                failure_text("Validation error in ", &path, msg),
            )),
            SchemaVerdict::Accepted => None,
        };
        self.last_processed_file = Some(path);
        failure
    }

    /// Walks the events of a markup document, collecting its rule records
    /// and capturing its schema version; the count of files is left alone.
    fn walk_events(&mut self, events: Vec<MarkupEvent>)
        ensures
            ({
                let w = walk_run(walk_init(old(self)@), crate::markup::events_view(events@)).0;
                final(self)@ == (MergeModel { schema_version: w.schema_version, rules: w.rules, ..old(self)@ })
            }),
    {
        let ghost m0 = old(self)@;
        let ghost all = crate::markup::events_view(events@);
        let ghost target = walk_run(walk_init(m0), all);
        let mut rest = events;
        let mut walker = Walker { stack: Vec::new(), in_filtering: false };
        assert(walk_frames(walker.stack@) =~= Seq::empty());
        loop
            invariant
                walk_run(walk_of(&walker, self), crate::markup::events_view(rest@)) == target,
                target == walk_run(walk_init(m0), all),
                all == crate::markup::events_view(events@),
                self.processed_files_count == m0.processed,
                self@.last_file == m0.last_file,
                m0 == old(self)@,
            decreases rest@.len(),
        {
            let ghost w = walk_of(&walker, self);
            let ghost before = crate::markup::events_view(rest@);
            if rest.len() == 0 {
                assert(target == (w, false));
                return;
            }
            let ev = rest.remove(0);
            assert(crate::markup::events_view(rest@) =~= before.drop_first());
            assert(before[0] == ev@);
            if ev.is_end() {
                assert(target == (w, false));
                return;
            }
            match ev {
                MarkupEvent::Start(n, a) => walker.start(self, n, &a),
                MarkupEvent::Text(t) => walker.text(self, t),
                MarkupEvent::End(n) => walker.end(self, n),
                MarkupEvent::Markup(_) => {},
            }
        }
    }

    /// Ingests a markup document read from `path`, given the outcome of its
    /// schema check. A rejected document yields the check's error, naming
    /// the path, and adds nothing; a document whose markup cannot be read
    /// yields `XmlParse` and keeps what was collected before the failure.
    pub fn process_xml_file(&mut self, path: String, content: &str, verdict: SchemaVerdict) -> (r:
        Result<(), ConversionError>)
        requires
            old(self)@.processed < usize::MAX,
        ensures
            final(self)@ == ingest_markup(old(self)@, path@, content@, verdict_accepts(verdict)),
            match verdict {
                SchemaVerdict::Accepted => (r is Ok <==> !walk_run(
                    walk_init(old(self)@),
                    markup_tokens(content@, false, true),
                ).1) && (r is Err ==> r->Err_0 is XmlParse),
                SchemaVerdict::Unparsable(msg) => r matches Err(ConversionError::ParserError(e))
                    && e@ == parse_failure_text(path@, msg@),
                SchemaVerdict::Invalid(msg) => r matches Err(ConversionError::ValidationError(e))
                    && e@ == validation_failure_text(path@, msg@),
            },
    {
        if let Some(e) = self.refusal(path, &verdict) {
            return Err(e);
        }
        let mut reader = MarkupReader::open(content, false, true);
        proof {
            lemma_walk_until_end(walk_init(old(self)@), reader.pending());
        }
        let (events, failure) = reader.read_all();
        self.walk_events(events);
        match failure {
            Some(e) => Err(ConversionError::XmlParse(e.to_string())),
            None => {
                self.processed_files_count = self.processed_files_count + 1;
                Ok(())
            },
        }
    }

    /// Ingests a markup document given as the events a reader reported
    /// for it (all read successfully), with the outcome of its schema
    /// check; as `process_xml_file`, but a document given this way is
    /// always read to its end.
    pub fn process_markup_events(&mut self, path: String, events: Vec<MarkupEvent>, verdict: SchemaVerdict) -> (r:
        Result<(), ConversionError>)
        requires
            old(self)@.processed < usize::MAX,
        ensures
            final(self)@ == ingest_events(old(self)@, path@, crate::markup::events_view(events@), verdict_accepts(verdict)),
            match verdict {
                SchemaVerdict::Accepted => r is Ok,
                SchemaVerdict::Unparsable(msg) => r matches Err(ConversionError::ParserError(e))
                    && e@ == parse_failure_text(path@, msg@),
                SchemaVerdict::Invalid(msg) => r matches Err(ConversionError::ValidationError(e))
                    && e@ == validation_failure_text(path@, msg@),
            },
    {
        if let Some(e) = self.refusal(path, &verdict) {
            return Err(e);
        }
        proof {
            lemma_walk_ends(walk_init(old(self)@), crate::markup::events_view(events@));
        }
        self.walk_events(events);
        self.processed_files_count = self.processed_files_count + 1;
        Ok(())
    }

    /// Ingests a structured document: it must be an object.
    pub fn process_json_value(&mut self, doc: Value) -> (r: Result<(), ConversionError>)
        requires
            old(self)@.processed < usize::MAX,
        ensures
            final(self)@ == ingest_structured(old(self)@, doc@),
            r is Ok <==> doc@ is Object,
            r is Err ==> r->Err_0 is InvalidFile,
    {
        match doc {
            Value::Object(es) => {
                proof {
                    lemma_entries_view(es@);
                }
                if self.schema_version.is_none() {
                    if let Some(Value::String(v)) = crate::value::get_entry(&es, schema_key_str()) {
                        self.schema_version = Some(v.clone());
                    }
                }
                if let Some(Value::Object(fs)) = crate::value::get_entry(&es, filtering_str()) {
                    match crate::value::get_entry(fs, group_str()) {
                        Some(Value::Array(items)) => append_values(&mut self.current_rules, items),
                        Some(g) => {
                            let ghost before = self.current_rules@;
                            self.current_rules.push(g.duplicate());
                            proof {
                                lemma_items_view(before);
                                lemma_items_view(self.current_rules@);
                                assert(items_view(self.current_rules@) =~= items_view(before).push(
                                    g@,
                                ));
                            }
                        },
                        None => {},
                    }
                }
                self.processed_files_count = self.processed_files_count + 1;
                Ok(())
            },
            _ => Err(ConversionError::InvalidFile(literal("Not a JSON object"))),
        }
    }
}

/// The process-creation blocks of `rules`, copied.
fn process_blocks_of(rules: &Vec<Value>) -> (r: Vec<Value>)
    ensures
        items_view(r@) == process_blocks(items_view(rules@)),
{
    let ghost rs = items_view(rules@);
    proof {
        lemma_items_view(rules@);
        assert(rs.take(0) =~= Seq::empty());
    }
    let mut out: Vec<Value> = Vec::new();
    proof {
        lemma_items_view(out@);
    }
    let mut i: usize = 0;
    while i < rules.len()
        invariant
            i <= rules@.len(),
            rs == items_view(rules@),
            rs.len() == rules@.len(),
            forall|j: int| 0 <= j < rs.len() ==> #[trigger] rs[j] == rules@[j]@,
            items_view(out@) == process_blocks(rs.take(i as int)),
        decreases rules@.len() - i,
    {
        proof {
            assert(rs.take(i + 1).drop_last() =~= rs.take(i as int));
            assert(rs.take(i + 1).last() == rules@[i as int]@);
        }
        if let Value::Object(es) = &rules[i] {
            if let Some(pc) = crate::value::get_entry(es, process_create_str()) {
                let ghost before = out@;
                out.push(pc.duplicate());
                proof {
                    lemma_items_view(before);
                    lemma_items_view(out@);
                    assert(items_view(out@) =~= items_view(before).push(pc@));
                }
            }
        }
        i = i + 1;
    }
    proof {
        assert(rs.take(i as int) =~= rs);
    }
    out
}

/// The image conditions of process-creation blocks, copied.
fn image_conditions_of(blocks: &Vec<Value>) -> (r: Vec<Value>)
    ensures
        items_view(r@) == image_conditions(items_view(blocks@)),
{
    let ghost rs = items_view(blocks@);
    proof {
        lemma_items_view(blocks@);
        assert(rs.take(0) =~= Seq::empty());
    }
    let mut out: Vec<Value> = Vec::new();
    proof {
        lemma_items_view(out@);
    }
    let mut i: usize = 0;
    while i < blocks.len()
        invariant
            i <= blocks@.len(),
            rs == items_view(blocks@),
            rs.len() == blocks@.len(),
            forall|j: int| 0 <= j < rs.len() ==> #[trigger] rs[j] == blocks@[j]@,
            items_view(out@) == image_conditions(rs.take(i as int)),
        decreases blocks@.len() - i,
    {
        proof {
            assert(rs.take(i + 1).drop_last() =~= rs.take(i as int));
            assert(rs.take(i + 1).last() == blocks@[i as int]@);
        }
        if let Value::Object(es) = &blocks[i] {
            if let Some(img) = crate::value::get_entry(es, image_str()) {
                let ghost before = out@;
                out.push(img.duplicate());
                proof {
                    lemma_items_view(before);
                    lemma_items_view(out@);
                    assert(items_view(out@) =~= items_view(before).push(img@));
                }
            }
        }
        i = i + 1;
    }
    proof {
        assert(rs.take(i as int) =~= rs);
    }
    out
}

/// An object entry holding a string.
fn string_entry(k: &'static str, v: &'static str) -> (r: (String, Value))
    ensures
        r.0@ == k@,
        r.1@ == Tree::Str(v@),
{
    (k.to_owned(), Value::String(v.to_owned()))
}

impl ConfigMerger {
    /// The merged document for what has been collected.
    pub fn build_merged_config(&self) -> (r: Value)
        ensures
            r@ == merged_tree(self@),
    {
        let version = match &self.schema_version {
            Some(v) => v.clone(),
            None => {
                let s = "4.30";
                proof {
                    reveal_strlit("4.30");
                    assert(s@ =~= fallback_version());
                }
                s.to_owned()
            },
        };
        let ghost vv = version@;
        let mut root: Vec<(String, Value)> = Vec::new();
        root.push((schema_key_str().to_owned(), Value::String(version)));
        let blocks = process_blocks_of(&self.current_rules);
        proof {
            lemma_items_view(blocks@);
        }
        if blocks.len() > 0 {
            let images = image_conditions_of(&blocks);
            let ghost iv = items_view(images@);
            let mut pc: Vec<(String, Value)> = Vec::new();
            let onmatch = "@onmatch";
            proof {
                reveal_strlit("@onmatch");
                assert(onmatch@ =~= seq!['@', 'o', 'n', 'm', 'a', 't', 'c', 'h']);
            }
            let policy: Vec<char> = vec!['i', 'n', 'c', 'l', 'u', 'd', 'e'];
            let policy = crate::text::string_of(policy.as_slice());
            assert(policy@ =~= seq!['i', 'n', 'c', 'l', 'u', 'd', 'e']);
            pc.push((onmatch.to_owned(), Value::String(policy)));
            pc.push((image_str().to_owned(), Value::Array(images)));
            let ghost pcv = entries_view(pc@);
            let mut group: Vec<(String, Value)> = Vec::new();
            let name_key = "@name";
            let merged_name = "MergedRules";
            let relation_key = "@groupRelation";
            let or = "or";
            proof {
                reveal_strlit("@name");
                reveal_strlit("MergedRules");
                reveal_strlit("@groupRelation");
                reveal_strlit("or");
                assert(name_key@ =~= seq!['@', 'n', 'a', 'm', 'e']);
                assert(merged_name@ =~= seq!['M', 'e', 'r', 'g', 'e', 'd', 'R', 'u', 'l', 'e', 's']);
                assert(relation_key@ =~= seq!['@', 'g', 'r', 'o', 'u', 'p', 'R', 'e', 'l', 'a', 't', 'i', 'o', 'n']);
                assert(or@ =~= seq!['o', 'r']);
            }
            group.push(string_entry(name_key, merged_name));
            group.push(string_entry(relation_key, or));
            group.push((process_create_str().to_owned(), Value::Object(pc)));
            let mut filtering: Vec<(String, Value)> = Vec::new();
            filtering.push((group_str().to_owned(), Value::Object(group)));
            root.push((filtering_str().to_owned(), Value::Object(filtering)));
            proof {
                lemma_entries_view(pc@);
                lemma_entries_view(group@);
                lemma_entries_view(filtering@);
                lemma_entries_view(root@);
                assert(iv == image_conditions(process_blocks(self@.rules)));
                assert(pcv[0] == str_entry(seq!['@', 'o', 'n', 'm', 'a', 't', 'c', 'h'], seq!['i', 'n', 'c', 'l', 'u', 'd', 'e']));
                assert(pcv[1] == (image_tag(), Tree::Array(iv)));
                assert(pcv =~= seq![
                    str_entry(seq!['@', 'o', 'n', 'm', 'a', 't', 'c', 'h'], seq!['i', 'n', 'c', 'l', 'u', 'd', 'e']),
                    (image_tag(), Tree::Array(image_conditions(process_blocks(self@.rules)))),
                ]);
                let gv = entries_view(group@);
                assert(gv[0] == str_entry(seq!['@', 'n', 'a', 'm', 'e'], seq!['M', 'e', 'r', 'g', 'e', 'd', 'R', 'u', 'l', 'e', 's']));
                assert(gv[1] == str_entry(seq!['@', 'g', 'r', 'o', 'u', 'p', 'R', 'e', 'l', 'a', 't', 'i', 'o', 'n'], seq!['o', 'r']));
                assert(gv[2] == (process_create_tag(), Tree::Object(pcv)));
                assert(gv =~= merged_group(self@.rules)->Object_0);
                let fv = entries_view(filtering@);
                assert(fv[0] == (group_tag(), merged_group(self@.rules)));
                assert(fv =~= seq![(group_tag(), merged_group(self@.rules))]);
                assert(entries_view(root@) =~= seq![str_entry(schema_key(), vv)].push(
                    (filtering_tag(), Tree::Object(seq![(group_tag(), merged_group(self@.rules))])),
                ));
            }
        } else {
            proof {
                lemma_entries_view(root@);
                assert(entries_view(root@) =~= seq![str_entry(schema_key(), vv)]);
            }
        }
        Value::Object(root)
    }
}

/// The XML declaration a merged document starts with.
pub open spec fn merged_declaration() -> Seq<char> {
    "<?xml version=\"1.0\" encoding=\"UTF-8\"?>"@
}

/// The merged document as markup: a declaration, then the document as an
/// element named `Sysmon`, with `$` keys other than `$text` skipped.
pub fn merged_markup(merged: &Value) -> (r: String)
    ensures
        r@ == crate::writer::markup_of(
            seq![Token::Markup(merged_declaration())] + crate::writer::merge_events(merged@, sysmon_tag()),
        ),
{
    let mut events: Vec<MarkupEvent> = Vec::new();
    let decl = "<?xml version=\"1.0\" encoding=\"UTF-8\"?>";
    proof {
        reveal_strlit("<?xml version=\"1.0\" encoding=\"UTF-8\"?>");
    }
    events.push(MarkupEvent::Markup(decl.to_owned()));
    let ghost first = crate::markup::events_view(events@);
    crate::writer::write_events_in(merged, Some(sysmon_str()), false, &mut events);
    assert(first =~= seq![Token::Markup(merged_declaration())]);
    crate::writer::render_markup(&events)
}

/// The validation gate on the merged document: it is kept only when the
/// external check accepted its markup.
pub fn accept_merged(merged: Value, verdict: SchemaVerdict) -> (r: Result<Value, ConversionError>)
    ensures
        match verdict {
            SchemaVerdict::Accepted => r matches Ok(v) && v@ == merged@,
            SchemaVerdict::Unparsable(msg) => r matches Err(ConversionError::ValidationError(e)) && e@ == msg@,
            SchemaVerdict::Invalid(msg) => r matches Err(ConversionError::ValidationError(e)) && e@ == msg@,
        },
{
    match verdict {
        SchemaVerdict::Accepted => Ok(merged),
        SchemaVerdict::Unparsable(msg) => Err(ConversionError::ValidationError(msg)),
        SchemaVerdict::Invalid(msg) => Err(ConversionError::ValidationError(msg)),
    }
}

/// The text form a merged document is written in.
#[derive(Debug, PartialEq, Eq, Structural, Clone, Copy)]
pub enum OutputFormat {
    Markup,
    Structured,
}

/// Chooses the output form from the output path's extension: `xml` for
/// markup, `json` for the structured form; anything else is refused.
pub fn output_format(extension: Option<&str>) -> (r: Result<OutputFormat, ConversionError>)
    ensures
        match extension {
            Some(e) if e@ == seq!['x', 'm', 'l'] => r == Ok::<OutputFormat, ConversionError>(OutputFormat::Markup),
            Some(e) if e@ == seq!['j', 's', 'o', 'n'] => r == Ok::<OutputFormat, ConversionError>(OutputFormat::Structured),
            _ => r matches Err(ConversionError::InvalidFile(_)),
        },
{
    let xml = "xml";
    let json = "json";
    proof {
        reveal_strlit("xml");
        reveal_strlit("json");
        assert(xml@ =~= seq!['x', 'm', 'l']);
        assert(json@ =~= seq!['j', 's', 'o', 'n']);
    }
    match extension {
        Some(e) => {
            if text_eq(e, xml) {
                Ok(OutputFormat::Markup)
            } else if text_eq(e, json) {
                Ok(OutputFormat::Structured)
            } else {
                Err(ConversionError::InvalidFile(literal("Invalid output extension")))
            }
        },
        None => Err(ConversionError::InvalidFile(literal("Invalid output extension"))),
    }
}

} // verus!
