use vstd::prelude::*;
use crate::error::PreprocessError;
use crate::markup::{MarkupEvent, MarkupReader, Token, events_view, head_token, markup_tokens};
use crate::text::{chars_of, string_of, trim, trimmed};
use crate::value::text_eq;
use crate::writer::{markup_of, render_markup};

verus! {

broadcast use {vstd::std_specs::vec::group_vec_axioms, vstd::seq::group_seq_axioms};

/// `/` replaced by `\` throughout.
pub open spec fn backslashed(s: Seq<char>) -> Seq<char> {
    s.map_values(|c: char| if c == '/' { '\\' } else { c })
}

/// `s` without its trailing backslashes.
pub open spec fn strip_trailing_backslashes(s: Seq<char>) -> Seq<char>
    decreases s.len(),
{
    if s.len() > 0 && s.last() == '\\' {
        strip_trailing_backslashes(s.drop_last())
    } else {
        s
    }
}

pub open spec fn ascii_upper(c: char) -> char {
    if 'a' <= c && c <= 'z' {
        ((c as u8) - 32) as char
    } else {
        c
    }
}

/// `s` with its first character in ASCII upper case.
pub open spec fn upper_first(s: Seq<char>) -> Seq<char> {
    if s.len() > 0 {
        s.update(0, ascii_upper(s[0]))
    } else {
        s
    }
}

/// A path after normalization. Surrounding white space is dropped. A UNC
/// path (leading `\\`) gets backslash separators. A drive path (second
/// character `:`) gets backslash separators, no trailing backslash and an
/// upper-case drive letter. Anything else is left as it is.
pub open spec fn normalized_path(p: Seq<char>) -> Seq<char> {
    let t = trimmed(p);
    if t.len() >= 2 && t[0] == '\\' && t[1] == '\\' {
        backslashed(t)
    } else if t.len() >= 2 && t[1] == ':' {
        upper_first(strip_trailing_backslashes(backslashed(t)))
    } else {
        t
    }
}

/// Attribute names whose values are paths.
pub open spec fn path_attribute(k: Seq<char>) -> bool {
    ||| k == seq!['I', 'm', 'a', 'g', 'e']
    ||| k == seq!['I', 'm', 'a', 'g', 'e', 'L', 'o', 'a', 'd', 'e', 'd']
    ||| k == seq!['T', 'a', 'r', 'g', 'e', 't', 'F', 'i', 'l', 'e', 'n', 'a', 'm', 'e']
}

/// Text that looks like a path: it holds a backslash or a colon.
pub open spec fn path_like(t: Seq<char>) -> bool {
    exists|i: int| 0 <= i < t.len() && (t[i] == '\\' || t[i] == ':')
}

/// Whether an attribute with this name holds a path.
pub fn is_path_attribute(key: &str) -> (r: bool)
    ensures
        r == path_attribute(key@),
{
    let a = "Image";
    let b = "ImageLoaded";
    let c = "TargetFilename";
    proof {
        reveal_strlit("Image");
        reveal_strlit("ImageLoaded");
        reveal_strlit("TargetFilename");
        assert(a@ =~= seq!['I', 'm', 'a', 'g', 'e']);
        assert(b@ =~= seq!['I', 'm', 'a', 'g', 'e', 'L', 'o', 'a', 'd', 'e', 'd']);
        assert(c@ =~= seq!['T', 'a', 'r', 'g', 'e', 't', 'F', 'i', 'l', 'e', 'n', 'a', 'm', 'e']);
    }
    text_eq(key, a) || text_eq(key, b) || text_eq(key, c)
}

/// Whether text looks like a path.
pub fn is_path_element(text: &str) -> (r: bool)
    ensures
        r == path_like(text@),
{
    let cs = chars_of(text);
    let mut i: usize = 0;
    while i < cs.len()
        invariant
            i <= cs@.len(),
            cs@ == text@,
            forall|j: int| 0 <= j < i ==> !(#[trigger] cs@[j] == '\\' || cs@[j] == ':'),
        decreases cs@.len() - i,
    {
        if cs[i] == '\\' || cs[i] == ':' {
            return true;
        }
        i = i + 1;
    }
    false
}

/// Normalizes a Windows path; this never fails.
pub fn normalize_path(path: &str) -> (r: Result<String, PreprocessError>)
    ensures
        r matches Ok(s) && s@ == normalized_path(path@),
{
    let t = trim(path);
    let cs = chars_of(t.as_str());
    let n = cs.len();
    let unc = n >= 2 && cs[0] == '\\' && cs[1] == '\\';
    let drive = n >= 2 && cs[1] == ':';
    if !unc && !drive {
        return Ok(t);
    }
    let mut out: Vec<char> = Vec::new();
    let mut i: usize = 0;
    while i < n
        invariant
            i <= n,
            n == cs@.len(),
            out@ == backslashed(cs@).take(i as int),
        decreases n - i,
    {
        if cs[i] == '/' {
            out.push('\\');
        } else {
            out.push(cs[i]);
        }
        proof {
            assert(backslashed(cs@).take(i + 1) =~= backslashed(cs@).take(i as int).push(
                backslashed(cs@)[i as int],
            ));
        }
        i = i + 1;
    }
    proof {
        assert(backslashed(cs@).take(i as int) =~= backslashed(cs@));
    }
    if unc {
        return Ok(string_of(out.as_slice()));
    }
    let ghost full = out@;
    while out.len() > 0 && out[out.len() - 1] == '\\'
        invariant
            strip_trailing_backslashes(out@) == strip_trailing_backslashes(full),
        decreases out@.len(),
    {
        let ghost before = out@;
        out.pop();
        assert(out@ =~= before.drop_last());
    }
    if out.len() > 0 {
        let c = out[0];
        let u = if 'a' <= c && c <= 'z' {
            ((c as u8) - 32) as char
        } else {
            c
        };
        out.set(0, u);
    }
    Ok(string_of(out.as_slice()))
}

pub open spec fn normalize_attr(p: (Seq<char>, Seq<char>)) -> (Seq<char>, Seq<char>) {
    if path_attribute(p.0) {
        (p.0, normalized_path(p.1))
    } else {
        p
    }
}

pub open spec fn normalize_attrs(a: Seq<(Seq<char>, Seq<char>)>) -> Seq<(Seq<char>, Seq<char>)> {
    a.map_values(|p| normalize_attr(p))
}

pub open spec fn normalize_text(t: Seq<char>) -> Seq<char> {
    if path_like(t) {
        normalized_path(t)
    } else {
        t
    }
}

/// Markup that is a comment.
pub open spec fn is_comment(m: Seq<char>) -> bool {
    m.len() >= 4 && m.take(4) == seq!['<', '!', '-', '-']
}

/// What one event becomes: tags keep their names with path attributes
/// normalized, path-like text is normalized, comments are dropped, and other
/// markup (declarations, CDATA sections, processing instructions, doctypes)
/// is kept as it is.
pub open spec fn normalize_event(t: Token) -> Seq<Token> {
    match t {
        Token::Start(n, a) => seq![Token::Start(n, normalize_attrs(a))],
        Token::End(n) => seq![Token::End(n)],
        Token::Text(s) => seq![Token::Text(normalize_text(s))],
        Token::Markup(m) => if is_comment(m) {
            Seq::empty()
        } else {
            seq![Token::Markup(m)]
        },
        _ => Seq::empty(),
    }
}

/// Whether markup is a comment.
fn comment_markup(m: &String) -> (r: bool)
    ensures
        r == is_comment(m@),
{
    let cs = chars_of(m.as_str());
    let r = cs.len() >= 4 && cs[0] == '<' && cs[1] == '!' && cs[2] == '-' && cs[3] == '-';
    proof {
        if cs@.len() >= 4 {
            if r {
                assert(m@.take(4) =~= seq!['<', '!', '-', '-']);
            } else if m@.take(4) == seq!['<', '!', '-', '-'] {
                assert(m@.take(4)[0] == m@[0] && m@.take(4)[1] == m@[1] && m@.take(4)[2] == m@[2] && m@.take(4)[3] == m@[3]);
            }
        }
    }
    r
}

/// The events written for a document, up to its end or its first unreadable
/// part.
pub open spec fn normalized_events(ts: Seq<Token>) -> Seq<Token>
    decreases ts.len(),
{
    match head_token(ts) {
        Token::Fault => Seq::empty(),
        Token::Eof => Seq::empty(),
        t => normalize_event(t) + normalized_events(ts.drop_first()),
    }
}

fn normalize_attributes(attrs: Vec<(String, String)>) -> (r: Vec<(String, String)>)
    ensures
        crate::markup::attrs_view(r@) == normalize_attrs(crate::markup::attrs_view(attrs@)),
{
    let ghost av = crate::markup::attrs_view(attrs@);
    let mut out: Vec<(String, String)> = Vec::new();
    let mut i: usize = 0;
    while i < attrs.len()
        invariant
            i <= attrs@.len(),
            av == crate::markup::attrs_view(attrs@),
            out@.len() == i,
            crate::markup::attrs_view(out@) == normalize_attrs(av).take(i as int),
        decreases attrs@.len() - i,
    {
        let (k, v) = &attrs[i];
        let ghost before = out@;
        assert(av[i as int] == (k@, v@));
        if is_path_attribute(k.as_str()) {
            match normalize_path(v.as_str()) {
                Ok(n) => out.push((k.clone(), n)),
                Err(_) => out.push((k.clone(), v.clone())),
            }
        } else {
            out.push((k.clone(), v.clone()));
        }
        assert(out@.len() == i + 1);
        assert(crate::markup::attrs_view(out@)[i as int] == normalize_attr(av[i as int]));
        assert forall|j: int| 0 <= j < i implies #[trigger] crate::markup::attrs_view(out@)[j]
            == crate::markup::attrs_view(before)[j] by {
            assert(out@[j] == before[j]);
        }
        assert(crate::markup::attrs_view(out@) =~= normalize_attrs(av).take(i + 1));
        i = i + 1;
    }
    assert(normalize_attrs(av).take(i as int) =~= normalize_attrs(av));
    out
}

/// Appends what one event becomes.
fn push_normalized(ev: MarkupEvent, out: &mut Vec<MarkupEvent>)
    ensures
        events_view(final(out)@) == events_view(old(out)@) + normalize_event(ev@),
{
    let ghost before = events_view(out@);
    let ghost t = ev@;
    match ev {
        MarkupEvent::Start(n, a) => {
            out.push(MarkupEvent::Start(n, normalize_attributes(a)));
        },
        MarkupEvent::End(n) => {
            out.push(MarkupEvent::End(n));
        },
        MarkupEvent::Text(t) => {
            if is_path_element(t.as_str()) {
                match normalize_path(t.as_str()) {
                    Ok(n) => out.push(MarkupEvent::Text(n)),
                    Err(_) => out.push(MarkupEvent::Text(t)),
                }
            } else {
                out.push(MarkupEvent::Text(t));
            }
        },
        MarkupEvent::Markup(m) => {
            if m.as_str().unicode_len() > 0 && !comment_markup(&m) {
                out.push(MarkupEvent::Markup(m));
            }
        },
    }
    assert(events_view(out@) =~= before + normalize_event(t));
}

proof fn lemma_normalized_until_end(ts: Seq<Token>)
    ensures
        normalized_events(ts) == normalized_events(crate::markup::until_end(ts).0),
    decreases ts.len(),
{
    match head_token(ts) {
        Token::Eof => {},
        Token::Fault => {},
        t => {
            let r = ts.drop_first();
            lemma_normalized_until_end(r);
            let p = seq![t] + crate::markup::until_end(r).0;
            assert(p.drop_first() =~= crate::markup::until_end(r).0);
            assert(head_token(p) == t);
        },
    }
}

/// Normalizes a document given as the events a reader reported for it;
/// the events after an end of input are not looked at.
pub fn normalize_events(events: Vec<MarkupEvent>) -> (r: Vec<MarkupEvent>)
    ensures
        events_view(r@) == normalized_events(events_view(events@)),
{
    let ghost all = events_view(events@);
    let mut rest = events;
    let mut out: Vec<MarkupEvent> = Vec::new();
    assert(events_view(out@) =~= Seq::empty());
    loop
        invariant_except_break
            events_view(out@) + normalized_events(events_view(rest@)) == normalized_events(all),
        invariant
            all == events_view(events@),
        ensures
            events_view(out@) == normalized_events(all),
        decreases rest@.len(),
    {
        let ghost before = events_view(rest@);
        if rest.len() == 0 {
            assert(normalized_events(before) =~= Seq::empty());
            assert(events_view(out@) =~= events_view(out@) + Seq::<Token>::empty());
            break;
        }
        let ev = rest.remove(0);
        assert(events_view(rest@) =~= before.drop_first());
        assert(before[0] == ev@);
        if ev.is_end() {
            assert(normalized_events(before) =~= Seq::empty());
            assert(events_view(out@) =~= events_view(out@) + Seq::<Token>::empty());
            break;
        }
        let ghost mid = events_view(out@);
        push_normalized(ev, &mut out);
        assert(events_view(out@) + normalized_events(events_view(rest@)) =~= mid + normalized_events(before));
    }
    out
}

/// Rewrites markup with path-valued attributes and path-like text
/// normalized; text is trimmed, white-space-only text and comments are
/// dropped, and other markup (self-closing elements included) is kept as
/// written. Reading stops at the first part that cannot be read.
pub fn process_xml_content(content: &str) -> (r: Result<String, PreprocessError>)
    ensures
        r matches Ok(s) && s@ == markup_of(normalized_events(markup_tokens(content@, true, false))),
{
    let mut reader = MarkupReader::open(content, true, false);
    proof {
        lemma_normalized_until_end(reader.pending());
    }
    let (events, _) = reader.read_all();
    Ok(render_markup(&normalize_events(events)))
}

} // verus!
