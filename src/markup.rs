use vstd::prelude::*;
use quick_xml::{Error as XmlError, Writer};
use quick_xml::events::{BytesEnd, BytesStart, BytesText, Event};

verus! {

/// One event of the markup encoding: what a reader reports and what a
/// writer emits. Names are kept as written; attribute values and text are
/// kept unescaped.
#[derive(Debug)]
pub enum MarkupEvent {
    /// An opening tag with its attributes, in document order.
    Start(String, Vec<(String, String)>),
    /// A closing tag.
    End(String),
    /// Character data.
    Text(String),
    /// Any other markup (declaration, comment, CDATA section, processing
    /// instruction, doctype, and an empty element when a reader does not
    /// expand those), exactly as written; empty at the end of the input, for
    /// which nothing is written.
    Markup(String),
}

/// The model of a markup event; `Fault` stands for a read that failed.
pub enum Token {
    Start(Seq<char>, Seq<(Seq<char>, Seq<char>)>),
    End(Seq<char>),
    Text(Seq<char>),
    /// Other markup as written (never empty).
    Markup(Seq<char>),
    Eof,
    Fault,
}

pub open spec fn attrs_view(attrs: Seq<(String, String)>) -> Seq<(Seq<char>, Seq<char>)> {
    attrs.map_values(|p: (String, String)| (p.0@, p.1@))
}

impl View for MarkupEvent {
    type V = Token;

    open spec fn view(&self) -> Token {
        match self {
            MarkupEvent::Start(n, a) => Token::Start(n@, attrs_view(a@)),
            MarkupEvent::End(n) => Token::End(n@),
            MarkupEvent::Text(t) => Token::Text(t@),
            MarkupEvent::Markup(m) => if m@.len() == 0 {
                Token::Eof
            } else {
                Token::Markup(m@)
            },
        }
    }
}

pub open spec fn events_view(evs: Seq<MarkupEvent>) -> Seq<Token> {
    evs.map_values(|e: MarkupEvent| e@)
}

/// What successive reads of quick_xml's reader report for `text`, up to and
/// including the first end of input; `trim` is the reader's `trim_text`
/// setting and `expand` its `expand_empty_elements` setting (with it, an
/// empty element is reported as an opening and a closing tag; without it, as
/// markup).
pub uninterp spec fn markup_tokens(text: Seq<char>, trim: bool, expand: bool) -> Seq<Token>;

/// The tokens before the first end of input or failed read, and whether a
/// read failed.
pub open spec fn until_end(ts: Seq<Token>) -> (Seq<Token>, bool)
    decreases ts.len(),
{
    match head_token(ts) {
        Token::Eof => (Seq::empty(), false),
        Token::Fault => (Seq::empty(), true),
        t => (seq![t] + until_end(ts.drop_first()).0, until_end(ts.drop_first()).1),
    }
}

/// A character as quick_xml's `escape` writes it.
pub open spec fn escape_char(c: char) -> Seq<char> {
    if c == '<' {
        "&lt;"@
    } else if c == '>' {
        "&gt;"@
    } else if c == '&' {
        "&amp;"@
    } else if c == '\'' {
        "&apos;"@
    } else if c == '"' {
        "&quot;"@
    } else {
        seq![c]
    }
}

/// Text as quick_xml's `escape` writes it.
pub open spec fn escaped(s: Seq<char>) -> Seq<char>
    decreases s.len(),
{
    if s.len() == 0 {
        Seq::empty()
    } else {
        escaped(s.drop_last()) + escape_char(s.last())
    }
}

/// Attributes as an opening tag carries them: ` k="v"` each, values
/// escaped.
pub open spec fn attrs_markup(a: Seq<(Seq<char>, Seq<char>)>) -> Seq<char>
    decreases a.len(),
{
    if a.len() == 0 {
        Seq::empty()
    } else {
        attrs_markup(a.drop_last()) + " "@ + a.last().0 + "=\""@ + escaped(a.last().1) + "\""@
    }
}

/// The text that quick_xml's writer emits for an opening tag, a closing tag
/// or text.
pub open spec fn event_markup(t: Token) -> Seq<char> {
    match t {
        Token::Start(n, a) => "<"@ + n + attrs_markup(a) + ">"@,
        Token::End(n) => "</"@ + n + ">"@,
        Token::Text(s) => escaped(s),
        _ => Seq::empty(),
    }
}

/// The next token of a pending sequence: once the sequence is used up, the
/// reader keeps reporting the end of the input.
pub open spec fn head_token(pending: Seq<Token>) -> Token {
    if pending.len() > 0 {
        pending[0]
    } else {
        Token::Eof
    }
}

pub open spec fn rest_tokens(pending: Seq<Token>) -> Seq<Token> {
    if pending.len() > 0 {
        pending.drop_first()
    } else {
        pending
    }
}

pub open spec fn result_token(r: Result<MarkupEvent, quick_xml::Error>) -> Token {
    match r {
        Ok(e) => e@,
        Err(_) => Token::Fault,
    }
}

/// quick_xml's pull reader, held opaque.
#[verifier::external_type_specification]
#[verifier::external_body]
#[verifier::reject_recursive_types(R)]
pub struct ExReader<R>(quick_xml::Reader<R>);

/// quick_xml's error, held opaque; it only carries a description.
#[verifier::external_type_specification]
#[verifier::external_body]
pub struct ExXmlError(quick_xml::Error);

/// A pull reader over markup text.
pub struct MarkupReader<'a> {
    inner: quick_xml::Reader<&'a [u8]>,
    pending: Ghost<Seq<Token>>,
}

impl<'a> MarkupReader<'a> {
    /// The tokens that the following reads will report.
    pub closed spec fn pending(&self) -> Seq<Token> {
        self.pending@
    }

    /// Relies on quick_xml's `Reader::from_str`, set to expand empty
    /// elements and to trim text as `trim` says.
    #[verifier::external_body]
    pub fn open(text: &'a str, trim: bool, expand: bool) -> (r: MarkupReader<'a>)
        ensures
            r.pending() == markup_tokens(text@, trim, expand),
    {
        let mut inner = quick_xml::Reader::from_str(text);
        inner.config_mut().trim_text(trim);
        inner.config_mut().expand_empty_elements = expand;
        MarkupReader { inner, pending: Ghost(markup_tokens(text@, trim, expand)) }
    }

    /// Relies on quick_xml's `Reader::read_event`: the next event, with
    /// attribute values and text unescaped (a malformed attribute
    /// fails the read); other markup is taken as quick_xml's `Writer::write_event`
    /// writes it back, which is the markup as read.
    #[verifier::external_body]
    pub fn next(&mut self) -> (r: Result<MarkupEvent, quick_xml::Error>)
        ensures
            result_token(r) == head_token(old(self).pending()),
            final(self).pending() == rest_tokens(old(self).pending()),
    {
        let lossy = |b| String::from_utf8_lossy(b).into_owned();
        Ok(match self.inner.read_event()? {
            Event::Start(e) => MarkupEvent::Start(lossy(e.name().0), e.attributes().map(|a| {
                let a = a?;
                Ok((lossy(a.key.0), a.unescape_value()?.into_owned()))
            }).collect::<Result<_, XmlError>>()?),
            Event::End(e) => MarkupEvent::End(lossy(&e)),
            Event::Text(e) => MarkupEvent::Text(e.unescape()?.into_owned()),
            e => {
                let mut w = Writer::new(Vec::new());
                w.write_event(e)?;
                MarkupEvent::Markup(lossy(&w.into_inner()))
            },
        })
    }
}

impl<'a> MarkupReader<'a> {
    /// Reads up to the end of the input or the first failed read: the events
    /// read, and the failure if there was one.
    pub fn read_all(&mut self) -> (r: (Vec<MarkupEvent>, Option<quick_xml::Error>))
        ensures
            events_view(r.0@) == until_end(old(self).pending()).0,
            r.1 is Some == until_end(old(self).pending()).1,
    {
        let ghost all = self.pending();
        let mut out: Vec<MarkupEvent> = Vec::new();
        assert(events_view(out@) =~= Seq::empty());
        loop
            invariant
                events_view(out@) + until_end(self.pending()).0 == until_end(all).0,
                until_end(self.pending()).1 == until_end(all).1,
                all == old(self).pending(),
            decreases self.pending().len(),
        {
            let ghost pend = self.pending();
            let ghost before = events_view(out@);
            match self.next() {
                Err(e) => {
                    assert(events_view(out@) =~= before + until_end(pend).0);
                    assert(until_end(pend).1);
                    return (out, Some(e));
                },
                Ok(ev) => {
                    if ev.is_end() {
                        assert(events_view(out@) =~= before + until_end(pend).0);
                        return (out, None);
                    }
                    out.push(ev);
                    assert(events_view(out@) + until_end(self.pending()).0 =~= before + until_end(pend).0);
                },
            }
        }
    }
}

/// Relies on quick_xml's `Writer::write_event` (no indentation) into a byte
/// vector, which cannot fail: `<name k="v"...>`, `</name>` or the text, with
/// attribute values and text passed through `escape`.
#[verifier::external_body]
pub fn render_event(ev: &MarkupEvent) -> (r: String)
    requires
        ev@ is Start || ev@ is End || ev@ is Text,
    ensures
        r@ == event_markup(ev@),
{
    let ev = match ev {
        MarkupEvent::Start(n, a) => Event::Start(
            BytesStart::new(n).with_attributes(a.iter().map(|(k, v)| (k.as_str(), v.as_str()))),
        ),
        MarkupEvent::End(n) => Event::End(BytesEnd::new(n)),
        MarkupEvent::Text(t) => Event::Text(BytesText::new(t)),
        _ => Event::Eof,
    };
    let mut w = quick_xml::Writer::new(Vec::new());
    let _ = w.write_event(ev);
    String::from_utf8_lossy(&w.into_inner()).into_owned()
}

/// The text of one event: tags and text as quick_xml writes them, other
/// markup as it is.
pub open spec fn token_markup(t: Token) -> Seq<char> {
    match t {
        Token::Markup(m) => m,
        Token::Start(..) | Token::End(..) | Token::Text(..) => event_markup(t),
        _ => Seq::empty(),
    }
}

impl MarkupEvent {
    /// Whether this is the end of the input.
    pub fn is_end(&self) -> (r: bool)
        ensures
            r == (self@ is Eof),
    {
        match self {
            MarkupEvent::Markup(m) => m.as_str().unicode_len() == 0,
            _ => false,
        }
    }
}

/// The text of one event.
pub fn markup_text(ev: &MarkupEvent) -> (r: String)
    ensures
        r@ == token_markup(ev@),
{
    match ev {
        MarkupEvent::Markup(m) => m.clone(),
        _ => render_event(ev),
    }
}

} // verus!
