//! The entries as a Logiqx XML datafile, written through `quick_xml`.

use vstd::prelude::*;
use vstd::utf8::{valid_utf8, decode_utf8, encode_utf8};
use crate::entry::Entry;
use crate::report::{hex_encode, hex_pairs};
use crate::text::{hex08, push_hex08, push_ascii, as_chars};
use quick_xml::events::{BytesDecl, BytesEnd, BytesStart, BytesText};
use quick_xml::events::Event::{Decl, DocType, Empty, End, Start, Text};

verus! {

/// A `quick_xml::Writer` that writes into a growable in-memory buffer,
/// indenting by four spaces. The writer is held in a private field; what it
/// has been given is named by `xml_written`.
#[verifier::external_body]
pub struct XmlSink {
    w: quick_xml::Writer<std::io::Cursor<Vec<u8>>>,
}

/// `quick_xml::Error`, which writing an event may return; it is carried as
/// it is and mapped to `XmlError::Write`.
#[verifier::external_type_specification]
#[verifier::external_body]
pub struct ExXmlError(quick_xml::Error);

/// How writing the XML failed.
#[derive(Debug, Clone, Copy, PartialEq, Eq)]
pub enum XmlError {
    /// The writer refused an event.
    Write,
    /// The document is not valid UTF-8.
    Utf8,
}

/// One XML event, with its bytes as they go into the document.
pub enum XmlEvent {
    /// `<?xml version="V" encoding="E"?>`, from the version and the encoding.
    Decl(Vec<u8>, Vec<u8>),
    /// `<!DOCTYPE` followed by the text and `>`.
    DocType(Vec<u8>),
    /// An opening tag with its attributes, whose values are taken as they are.
    Start(Vec<u8>, Vec<(Vec<u8>, Vec<u8>)>),
    /// A self-closing tag with its attributes.
    Empty(Vec<u8>, Vec<(Vec<u8>, Vec<u8>)>),
    /// A closing tag.
    End(Vec<u8>),
    /// Text, taken as already escaped.
    Text(Vec<u8>),
}

/// What an XML event holds.
pub enum XmlItem {
    Decl(Seq<u8>, Seq<u8>),
    DocType(Seq<u8>),
    Start(Seq<u8>, Seq<(Seq<u8>, Seq<u8>)>),
    Empty(Seq<u8>, Seq<(Seq<u8>, Seq<u8>)>),
    End(Seq<u8>),
    Text(Seq<u8>),
}

/// The bytes of the attributes.
pub open spec fn attrs_view(a: Seq<(Vec<u8>, Vec<u8>)>) -> Seq<(Seq<u8>, Seq<u8>)> {
    a.map_values(|kv: (Vec<u8>, Vec<u8>)| (kv.0@, kv.1@))
}

impl View for XmlEvent {
    type V = XmlItem;

    open spec fn view(&self) -> XmlItem {
        match self {
            XmlEvent::Decl(version, encoding) => XmlItem::Decl(version@, encoding@),
            XmlEvent::DocType(t) => XmlItem::DocType(t@),
            XmlEvent::Start(n, a) => XmlItem::Start(n@, attrs_view(a@)),
            XmlEvent::Empty(n, a) => XmlItem::Empty(n@, attrs_view(a@)),
            XmlEvent::End(n) => XmlItem::End(n@),
            XmlEvent::Text(t) => XmlItem::Text(t@),
        }
    }
}

/// Names the events written into the sink `s`, in order.
pub uninterp spec fn xml_written(s: XmlSink) -> Seq<XmlItem>;

/// What the writer puts before markup: when the event before was not text,
/// a line break and four spaces for each open element.
pub open spec fn indent_before(line_break: bool, depth: nat) -> Seq<u8> {
    if line_break {
        bytes_of(seq!['\n'] + Seq::new(4 * depth, |i: int| ' '))
    } else {
        Seq::empty()
    }
}

/// The attributes of a tag: each one as a space, the key, `="`, the value
/// and `"`, in order.
pub open spec fn attrs_bytes(a: Seq<(Seq<u8>, Seq<u8>)>) -> Seq<u8>
    decreases a.len(),
{
    if a.len() == 0 {
        Seq::empty()
    } else {
        attrs_bytes(a.drop_last()) + bytes_of(" "@) + a.last().0 + bytes_of("=\""@) + a.last().1
            + bytes_of("\""@)
    }
}

/// How many elements are open after the event: an opening tag opens one, a
/// closing tag closes one (never going below none).
pub open spec fn depth_after(item: XmlItem, depth: nat) -> nat {
    match item {
        XmlItem::Start(_, _) => depth + 1,
        XmlItem::End(_) => if depth == 0 {
            0
        } else {
            (depth - 1) as nat
        },
        _ => depth,
    }
}

/// The bytes of one event, written after an event that asks for a line
/// break (`line_break`) with `depth` elements open. Text is written as it
/// is; markup is indented, a closing tag at the depth it leaves.
pub open spec fn event_bytes(item: XmlItem, line_break: bool, depth: nat) -> Seq<u8> {
    match item {
        XmlItem::Decl(v, e) => indent_before(line_break, depth) + bytes_of("<?xml version=\""@) + v
            + bytes_of("\" encoding=\""@) + e + bytes_of("\"?>"@),
        XmlItem::DocType(t) => indent_before(line_break, depth) + bytes_of("<!DOCTYPE"@) + t
            + bytes_of(">"@),
        XmlItem::Start(n, a) => indent_before(line_break, depth) + bytes_of("<"@) + n + attrs_bytes(a)
            + bytes_of(">"@),
        XmlItem::Empty(n, a) => indent_before(line_break, depth) + bytes_of("<"@) + n + attrs_bytes(a)
            + bytes_of("/>"@),
        XmlItem::End(n) => indent_before(line_break, depth_after(item, depth)) + bytes_of("</"@) + n
            + bytes_of(">"@),
        XmlItem::Text(t) => t,
    }
}

/// The bytes of the events, written one after the other: every event but
/// text asks for a line break before the next markup.
pub open spec fn xml_render(items: Seq<XmlItem>, line_break: bool, depth: nat) -> Seq<u8>
    decreases items.len(),
{
    if items.len() == 0 {
        Seq::empty()
    } else {
        event_bytes(items[0], line_break, depth) + xml_render(
            items.drop_first(),
            !(items[0] is Text),
            depth_after(items[0], depth),
        )
    }
}

/// The document that a writer made by `xml_sink` produces from the events
/// `items`: nothing comes before the first event, and no element is open.
pub open spec fn xml_document(items: Seq<XmlItem>) -> Seq<u8> {
    xml_render(items, false, 0)
}

/// `quick_xml::Writer::new_with_indent` over an empty in-memory buffer,
/// indenting by four spaces: nothing is written yet.
#[verifier::external_body]
fn xml_sink() -> (s: XmlSink)
    ensures
        xml_written(s) == Seq::<XmlItem>::empty(),
{
    XmlSink { w: quick_xml::Writer::new_with_indent(std::io::Cursor::new(Vec::new()), b' ', 4) }
}

/// The bytes of every part of the event are valid UTF-8.
pub open spec fn item_valid_utf8(item: XmlItem) -> bool {
    match item {
        XmlItem::Decl(v, e) => valid_utf8(v) && valid_utf8(e),
        XmlItem::DocType(t) => valid_utf8(t),
        XmlItem::Start(n, a) => valid_utf8(n) && forall|i: int|
            0 <= i < a.len() ==> valid_utf8(#[trigger] a[i].0) && valid_utf8(a[i].1),
        XmlItem::Empty(n, a) => valid_utf8(n) && forall|i: int|
            0 <= i < a.len() ==> valid_utf8(#[trigger] a[i].0) && valid_utf8(a[i].1),
        XmlItem::End(n) => valid_utf8(n),
        XmlItem::Text(t) => valid_utf8(t),
    }
}

/// The bytes of every event are valid UTF-8.
pub open spec fn items_valid_utf8(items: Seq<XmlItem>) -> bool {
    forall|i: int| 0 <= i < items.len() ==> #[trigger] item_valid_utf8(items[i])
}

/// `quick_xml::Writer::write_event`, with the event built from its bytes:
/// a declaration by `BytesDecl::new(version, Some(encoding), None)`, a
/// document type and text by `BytesText::from_escaped` (written as they
/// are), tags by `BytesStart::borrowed_name` with `with_attributes` over byte
/// pairs (which the crate copies as they are) and `BytesEnd::borrowed`. The
/// writer's only failure is one of `write_all` on its buffer, and a
/// `Cursor<Vec<u8>>` grows to take every write, so the event is written.
#[verifier::external_body]
fn emit(s: &mut XmlSink, ev: &XmlEvent) -> (r: Result<(), quick_xml::Error>)
    ensures
        r is Ok,
        xml_written(*final(s)) == xml_written(*old(s)).push(ev@),
{
    s.w.write_event(match ev {
        XmlEvent::Decl(v, e) => Decl(BytesDecl::new(v, Some(e), None)),
        XmlEvent::DocType(t) => DocType(BytesText::from_escaped(&**t)),
        XmlEvent::Start(n, a) => Start(BytesStart::borrowed_name(n).with_attributes(a.iter().map(|(k, v)| (&**k, &**v)))),
        XmlEvent::Empty(n, a) => Empty(BytesStart::borrowed_name(n).with_attributes(a.iter().map(|(k, v)| (&**k, &**v)))),
        XmlEvent::End(n) => End(BytesEnd::borrowed(n)),
        XmlEvent::Text(t) => Text(BytesText::from_escaped(&**t)),
    })
}

/// `quick_xml::Writer::into_inner`, then `Cursor::into_inner`: the document
/// written. `write_event` puts markup, line breaks and indentation around
/// the bytes of each event, which it copies as they are, as `xml_document`
/// states.
#[verifier::external_body]
fn xml_bytes(s: XmlSink) -> (b: Vec<u8>)
    ensures
        b@ == xml_document(xml_written(s)),
{
    s.w.into_inner().into_inner()
}

/// `String::from_utf8`: the text of the bytes when they are valid UTF-8.
#[verifier::external_body]
fn string_from_utf8(b: Vec<u8>) -> (r: Option<String>)
    ensures
        match r {
            Some(s) => valid_utf8(b@) && s@ == decode_utf8(b@),
            None => !valid_utf8(b@),
        },
{
    String::from_utf8(b).ok()
}

/// The document type of a Logiqx datafile.
pub const DOCTYPE: &'static str =
    " datafile PUBLIC \"-//Logiqx//DTD ROM Management Datafile//EN\" \"http://www.logiqx.com/Dats/datafile.dtd\"";

/// The bytes of a text.
pub open spec fn bytes_of(s: Seq<char>) -> Seq<u8> {
    encode_utf8(s)
}

/// A character as XML text or attribute value: `<`, `>`, `'`, `&` and `"`
/// become entities, as `quick_xml::escape::escape` writes them.
pub open spec fn xml_escape_char(c: char) -> Seq<char> {
    if c == '<' {
        "&lt;"@
    } else if c == '>' {
        "&gt;"@
    } else if c == '\'' {
        "&apos;"@
    } else if c == '&' {
        "&amp;"@
    } else if c == '"' {
        "&quot;"@
    } else {
        seq![c]
    }
}

/// A text with its XML special characters written as entities.
pub open spec fn xml_escape(s: Seq<char>) -> Seq<char>
    decreases s.len(),
{
    if s.len() == 0 {
        Seq::empty()
    } else {
        xml_escape(s.drop_last()) + xml_escape_char(s.last())
    }
}

/// The escaped bytes of a text, as they go into the document.
pub open spec fn escaped_bytes(s: Seq<char>) -> Seq<u8> {
    bytes_of(xml_escape(s))
}

/// An element that holds only text: `<key>value</key>`.
pub open spec fn text_value_items(key: Seq<u8>, value: Seq<u8>) -> Seq<XmlItem> {
    seq![XmlItem::Start(key, Seq::empty()), XmlItem::Text(value), XmlItem::End(key)]
}

/// The XML declaration, the document type, the opening `datafile` tag and
/// the `header` element, whose `name` and `description` are the escaped
/// `name`.
pub open spec fn header_items(name: Seq<char>) -> Seq<XmlItem> {
    seq![
        XmlItem::Decl(bytes_of("1.0"@), bytes_of("UTF-8"@)),
        XmlItem::DocType(bytes_of(DOCTYPE@)),
        XmlItem::Start(bytes_of("datafile"@), Seq::empty()),
        XmlItem::Start(bytes_of("header"@), Seq::empty()),
    ] + text_value_items(bytes_of("name"@), escaped_bytes(name)) + text_value_items(
        bytes_of("description"@),
        escaped_bytes(name),
    ) + seq![XmlItem::End(bytes_of("header"@))]
}

/// The file name of a ROM: the entry's name, with `.ext` after it when an
/// extension is given.
pub open spec fn rom_name(name: Seq<char>, ext: Seq<char>) -> Seq<char> {
    if ext.len() != 0 {
        name + seq!['.'] + ext
    } else {
        name
    }
}

/// The attributes of a ROM: its escaped file name, its CRC32 in eight
/// hexadecimal digits and, where the entry has one, its SHA1 in forty
/// (hexadecimal digits need no escaping).
pub open spec fn rom_attrs(e: (u32, Option<Seq<u8>>, Seq<char>), ext: Seq<char>) -> Seq<
    (Seq<u8>, Seq<u8>),
> {
    seq![
        (bytes_of("name"@), escaped_bytes(rom_name(e.2, ext))),
        (bytes_of("crc"@), bytes_of(as_chars(hex08(e.0 as nat)))),
    ] + match e.1 {
        Some(s) => seq![(bytes_of("sha1"@), bytes_of(as_chars(hex_pairs(s))))],
        None => Seq::empty(),
    }
}

/// The `game` element of an entry.
pub open spec fn game_items(e: (u32, Option<Seq<u8>>, Seq<char>), ext: Seq<char>) -> Seq<XmlItem> {
    seq![XmlItem::Start(bytes_of("game"@), seq![(bytes_of("name"@), escaped_bytes(e.2))])]
        + text_value_items(bytes_of("description"@), escaped_bytes(e.2)) + seq![
        XmlItem::Empty(bytes_of("rom"@), rom_attrs(e, ext)),
        XmlItem::End(bytes_of("game"@)),
    ]
}

/// The `game` elements of the entries, in order.
pub open spec fn games_items(es: Seq<(u32, Option<Seq<u8>>, Seq<char>)>, ext: Seq<char>) -> Seq<
    XmlItem,
>
    decreases es.len(),
{
    if es.len() == 0 {
        Seq::empty()
    } else {
        games_items(es.drop_last(), ext) + game_items(es.last(), ext)
    }
}

/// The events of a whole datafile named `src`.
pub open spec fn datafile_items(
    es: Seq<(u32, Option<Seq<u8>>, Seq<char>)>,
    ext: Seq<char>,
    src: Seq<char>,
) -> Seq<XmlItem> {
    header_items(src) + games_items(es, ext) + seq![XmlItem::End(bytes_of("datafile"@))]
}

/// Events of valid UTF-8, put one after the other, stay so.
proof fn lemma_items_concat(a: Seq<XmlItem>, b: Seq<XmlItem>)
    requires
        items_valid_utf8(a),
        items_valid_utf8(b),
    ensures
        items_valid_utf8(a + b),
{
    assert forall|i: int| 0 <= i < (a + b).len() implies #[trigger] item_valid_utf8((a + b)[i]) by {
        if i < a.len() {
            assert((a + b)[i] == a[i]);
        } else {
            assert((a + b)[i] == b[i - a.len()]);
        }
    }
}

/// Every event of a datafile is made of the bytes of texts, so of valid
/// UTF-8.
proof fn lemma_datafile_items_valid(
    es: Seq<(u32, Option<Seq<u8>>, Seq<char>)>,
    ext: Seq<char>,
    src: Seq<char>,
)
    ensures
        items_valid_utf8(datafile_items(es, ext, src)),
    decreases es.len(),
{
    broadcast use vstd::utf8::encode_utf8_valid_utf8;

    let h = header_items(src);
    assert(items_valid_utf8(h)) by {
        assert forall|i: int| 0 <= i < h.len() implies #[trigger] item_valid_utf8(h[i]) by {}
    }
    lemma_games_items_valid(es, ext);
    let last = seq![XmlItem::End(bytes_of("datafile"@))];
    assert(items_valid_utf8(last)) by {
        assert forall|i: int| 0 <= i < last.len() implies #[trigger] item_valid_utf8(last[i]) by {}
    }
    lemma_items_concat(h, games_items(es, ext));
    lemma_items_concat(h + games_items(es, ext), last);
}

/// Every event of the `game` elements is valid UTF-8.
proof fn lemma_games_items_valid(es: Seq<(u32, Option<Seq<u8>>, Seq<char>)>, ext: Seq<char>)
    ensures
        items_valid_utf8(games_items(es, ext)),
    decreases es.len(),
{
    broadcast use vstd::utf8::encode_utf8_valid_utf8;

    if es.len() > 0 {
        lemma_games_items_valid(es.drop_last(), ext);
        let g = game_items(es.last(), ext);
        let a = rom_attrs(es.last(), ext);
        assert(forall|i: int| 0 <= i < a.len() ==> valid_utf8(#[trigger] a[i].0) && valid_utf8(a[i].1));
        assert(items_valid_utf8(g)) by {
            assert forall|i: int| 0 <= i < g.len() implies #[trigger] item_valid_utf8(g[i]) by {}
        }
        lemma_items_concat(games_items(es.drop_last(), ext), g);
    } else {
        assert(items_valid_utf8(games_items(es, ext)));
    }
}

/// Attributes of valid UTF-8 are written as valid UTF-8.
proof fn lemma_attrs_valid(a: Seq<(Seq<u8>, Seq<u8>)>)
    requires
        forall|i: int| 0 <= i < a.len() ==> valid_utf8(#[trigger] a[i].0) && valid_utf8(a[i].1),
    ensures
        valid_utf8(attrs_bytes(a)),
    decreases a.len(),
{
    broadcast use vstd::utf8::encode_utf8_valid_utf8;

    if a.len() > 0 {
        let r = a.drop_last();
        assert forall|i: int| 0 <= i < r.len() implies valid_utf8(#[trigger] r[i].0) && valid_utf8(
            r[i].1,
        ) by {
            assert(r[i] == a[i]);
        }
        lemma_attrs_valid(r);
        let k = a.last().0;
        let v = a.last().1;
        assert(valid_utf8(k) && valid_utf8(v)) by {
            assert(a[a.len() - 1] == a.last());
        }
        let p1 = attrs_bytes(r) + bytes_of(" "@);
        vstd::utf8::valid_utf8_concat(attrs_bytes(r), bytes_of(" "@));
        vstd::utf8::valid_utf8_concat(p1, k);
        vstd::utf8::valid_utf8_concat(p1 + k, bytes_of("=\""@));
        vstd::utf8::valid_utf8_concat(p1 + k + bytes_of("=\""@), v);
        vstd::utf8::valid_utf8_concat(p1 + k + bytes_of("=\""@) + v, bytes_of("\""@));
    }
}

/// Markup of valid UTF-8 put around bytes of valid UTF-8 stays valid UTF-8.
proof fn lemma_wrap_valid(pre: Seq<u8>, open: Seq<char>, n: Seq<u8>, mid: Seq<u8>, close: Seq<char>)
    requires
        valid_utf8(pre),
        valid_utf8(n),
        valid_utf8(mid),
    ensures
        valid_utf8(pre + bytes_of(open) + n + mid + bytes_of(close)),
{
    broadcast use vstd::utf8::encode_utf8_valid_utf8;

    vstd::utf8::valid_utf8_concat(pre, bytes_of(open));
    vstd::utf8::valid_utf8_concat(pre + bytes_of(open), n);
    vstd::utf8::valid_utf8_concat(pre + bytes_of(open) + n, mid);
    vstd::utf8::valid_utf8_concat(pre + bytes_of(open) + n + mid, bytes_of(close));
}

/// An event of valid UTF-8 is written as valid UTF-8.
proof fn lemma_event_valid(item: XmlItem, line_break: bool, depth: nat)
    requires
        item_valid_utf8(item),
    ensures
        valid_utf8(event_bytes(item, line_break, depth)),
{
    broadcast use vstd::utf8::encode_utf8_valid_utf8;

    let d = depth_after(item, depth);
    assert(valid_utf8(indent_before(line_break, depth)) && valid_utf8(indent_before(line_break, d)))
        by {
        assert(valid_utf8(Seq::<u8>::empty())) by {
            assert(Seq::<u8>::empty() == encode_utf8(Seq::<char>::empty()));
        }
    }
    match item {
        XmlItem::Decl(v, e) => {
            let pre = indent_before(line_break, depth);
            lemma_wrap_valid(pre, "<?xml version=\""@, v, bytes_of("\" encoding=\""@), Seq::empty());
            let x = pre + bytes_of("<?xml version=\""@) + v + bytes_of("\" encoding=\""@) + bytes_of(
                Seq::empty(),
            );
            assert(bytes_of(Seq::<char>::empty()) =~= Seq::<u8>::empty());
            assert(x =~= pre + bytes_of("<?xml version=\""@) + v + bytes_of("\" encoding=\""@));
            vstd::utf8::valid_utf8_concat(x, e);
            vstd::utf8::valid_utf8_concat(x + e, bytes_of("\"?>"@));
        },
        XmlItem::DocType(t) => {
            lemma_wrap_valid(indent_before(line_break, depth), "<!DOCTYPE"@, t, Seq::empty(), ">"@);
            assert(indent_before(line_break, depth) + bytes_of("<!DOCTYPE"@) + t + Seq::<u8>::empty()
                =~= indent_before(line_break, depth) + bytes_of("<!DOCTYPE"@) + t);
        },
        XmlItem::Start(n, a) => {
            lemma_attrs_valid(a);
            lemma_wrap_valid(indent_before(line_break, depth), "<"@, n, attrs_bytes(a), ">"@);
        },
        XmlItem::Empty(n, a) => {
            lemma_attrs_valid(a);
            lemma_wrap_valid(indent_before(line_break, depth), "<"@, n, attrs_bytes(a), "/>"@);
        },
        XmlItem::End(n) => {
            lemma_wrap_valid(indent_before(line_break, d), "</"@, n, Seq::empty(), ">"@);
            assert(indent_before(line_break, d) + bytes_of("</"@) + n + Seq::<u8>::empty()
                =~= indent_before(line_break, d) + bytes_of("</"@) + n);
        },
        XmlItem::Text(t) => {},
    }
}

/// Events of valid UTF-8 are written as valid UTF-8: the writer adds only
/// ASCII markup, line breaks and spaces.
proof fn lemma_render_valid(items: Seq<XmlItem>, line_break: bool, depth: nat)
    requires
        items_valid_utf8(items),
    ensures
        valid_utf8(xml_render(items, line_break, depth)),
    decreases items.len(),
{
    if items.len() == 0 {
        assert(Seq::<u8>::empty() == encode_utf8(Seq::<char>::empty()));
        vstd::utf8::encode_utf8_valid_utf8(Seq::<char>::empty());
    } else {
        let rest = items.drop_first();
        assert(items_valid_utf8(rest)) by {
            assert forall|i: int| 0 <= i < rest.len() implies #[trigger] item_valid_utf8(rest[i]) by {
                assert(rest[i] == items[i + 1]);
            }
        }
        assert(item_valid_utf8(items[0]));
        lemma_event_valid(items[0], line_break, depth);
        lemma_render_valid(rest, !(items[0] is Text), depth_after(items[0], depth));
        vstd::utf8::valid_utf8_concat(
            event_bytes(items[0], line_break, depth),
            xml_render(rest, !(items[0] is Text), depth_after(items[0], depth)),
        );
    }
}

/// The writer's error, as this library reports it.
fn lift(r: Result<(), quick_xml::Error>) -> (o: Result<(), XmlError>)
    ensures
        o is Ok <==> r is Ok,
        o is Err ==> o == Err::<(), XmlError>(XmlError::Write),
{
    match r {
        Ok(()) => Ok(()),
        Err(_) => Err(XmlError::Write),
    }
}

/// The bytes of a text, in a vector.
fn bytes_vec(s: &str) -> (v: Vec<u8>)
    ensures
        v@ == bytes_of(s@),
{
    vstd::slice::slice_to_vec(s.as_bytes())
}

/// Writes a text with its XML special characters as entities.
pub fn escape_xml(s: &str) -> (out: String)
    ensures
        out@ == xml_escape(s@),
{
    let n = s.unicode_len();
    let mut out = String::new();
    let mut i: usize = 0;
    while i < n
        invariant
            n == s@.len(),
            i <= n,
            out@ == xml_escape(s@.subrange(0, i as int)),
        decreases n - i,
    {
        let c = s.get_char(i);
        let ghost before = out@;
        if c == '<' {
            out.append("&lt;");
        } else if c == '>' {
            out.append("&gt;");
        } else if c == '\'' {
            out.append("&apos;");
        } else if c == '&' {
            out.append("&amp;");
        } else if c == '"' {
            out.append("&quot;");
        } else {
            crate::text::push_char(&mut out, c);
        }
        assert(out@ == before + xml_escape_char(c));
        assert(s@.subrange(0, i + 1).drop_last() =~= s@.subrange(0, i as int));
        i = i + 1;
    }
    assert(s@.subrange(0, n as int) =~= s@);
    out
}

/// The escaped bytes of a text, in a vector.
fn escaped_vec(s: &str) -> (v: Vec<u8>)
    ensures
        v@ == escaped_bytes(s@),
{
    let e = escape_xml(s);
    bytes_vec(e.as_str())
}

/// An opening tag without attributes.
fn plain_start(name: &str) -> (ev: XmlEvent)
    ensures
        ev@ == XmlItem::Start(bytes_of(name@), Seq::empty()),
{
    let none: Vec<(Vec<u8>, Vec<u8>)> = Vec::new();
    assert(attrs_view(none@) =~= Seq::<(Seq<u8>, Seq<u8>)>::empty());
    XmlEvent::Start(bytes_vec(name), none)
}

/// Writes `<key>value</key>`, with the value escaped.
fn write_text_value(writer: &mut XmlSink, key: &str, value: &str) -> (r: Result<(), XmlError>)
    ensures
        r is Ok,
        xml_written(*final(writer)) == xml_written(*old(writer)) + text_value_items(
            bytes_of(key@),
            escaped_bytes(value@),
        ),
{
    lift(emit(writer, &plain_start(key)))?;
    lift(emit(writer, &XmlEvent::Text(escaped_vec(value))))?;
    lift(emit(writer, &XmlEvent::End(bytes_vec(key))))?;
    assert(xml_written(*writer) =~= xml_written(*old(writer)) + text_value_items(
        bytes_of(key@),
        escaped_bytes(value@),
    ));
    Ok(())
}

/// Writes the XML declaration, the document type, the opening `datafile`
/// tag and the `header` element named `name`.
fn write_xml_header(writer: &mut XmlSink, name: &str) -> (r: Result<(), XmlError>)
    ensures
        r is Ok,
        xml_written(*final(writer)) == xml_written(*old(writer)) + header_items(name@),
{
    let decl = XmlEvent::Decl(bytes_vec("1.0"), bytes_vec("UTF-8"));
    lift(emit(writer, &decl))?;
    lift(emit(writer, &XmlEvent::DocType(bytes_vec(DOCTYPE))))?;
    lift(emit(writer, &plain_start("datafile")))?;
    lift(emit(writer, &plain_start("header")))?;
    write_text_value(writer, "name", name)?;
    write_text_value(writer, "description", name)?;
    lift(emit(writer, &XmlEvent::End(bytes_vec("header"))))?;
    assert(xml_written(*writer) =~= xml_written(*old(writer)) + header_items(name@));
    Ok(())
}

/// Writes the `game` element of an entry.
fn write_game(writer: &mut XmlSink, e: &Entry, ext: &str) -> (r: Result<(), XmlError>)
    ensures
        r is Ok,
        xml_written(*final(writer)) == xml_written(*old(writer)) + game_items(e@, ext@),
{
    let name = e.name.as_str();
    let mut game_attrs: Vec<(Vec<u8>, Vec<u8>)> = Vec::new();
    game_attrs.push((bytes_vec("name"), escaped_vec(name)));
    assert(attrs_view(game_attrs@) =~= seq![(bytes_of("name"@), escaped_bytes(e.name@))]);
    lift(emit(writer, &XmlEvent::Start(bytes_vec("game"), game_attrs)))?;
    write_text_value(writer, "description", name)?;
    let mut rom = e.name.clone();
    if !ext.is_empty() {
        rom.append(".");
        proof {
            reveal_strlit(".");
        }
        rom.append(ext);
    }
    assert(rom@ =~= rom_name(e.name@, ext@));
    let mut digits: Vec<u8> = Vec::new();
    push_hex08(&mut digits, e.crc.0 as u64);
    let mut crc = String::new();
    push_ascii(&mut crc, digits.as_slice());
    let mut rom_attrs_v: Vec<(Vec<u8>, Vec<u8>)> = Vec::new();
    rom_attrs_v.push((bytes_vec("name"), escaped_vec(rom.as_str())));
    rom_attrs_v.push((bytes_vec("crc"), bytes_vec(crc.as_str())));
    let ghost two = attrs_view(rom_attrs_v@);
    assert(two =~= seq![
        (bytes_of("name"@), escaped_bytes(rom_name(e.name@, ext@))),
        (bytes_of("crc"@), bytes_of(as_chars(hex08(e.crc.0 as nat)))),
    ]);
    match &e.sha1 {
        Some(s) => {
            let h = hex_encode(s.0.as_slice());
            rom_attrs_v.push((bytes_vec("sha1"), bytes_vec(h.as_str())));
            assert(attrs_view(rom_attrs_v@) =~= two.push(
                (bytes_of("sha1"@), bytes_of(as_chars(hex_pairs(s.0@)))),
            ));
        },
        None => {},
    }
    assert(attrs_view(rom_attrs_v@) =~= rom_attrs(e@, ext@));
    lift(emit(writer, &XmlEvent::Empty(bytes_vec("rom"), rom_attrs_v)))?;
    lift(emit(writer, &XmlEvent::End(bytes_vec("game"))))?;
    assert(xml_written(*writer) =~= xml_written(*old(writer)) + game_items(e@, ext@));
    Ok(())
}

/// The entries as a Logiqx XML datafile named `src`, whose ROM file names
/// carry the extension `ext` when one is given; names are escaped. It always
/// succeeds, with the text of the document that the writer produces from
/// `datafile_items`.
pub fn write_xml(entries: &[Entry], ext: &str, src: &str) -> (r: Result<String, XmlError>)
    ensures
        r is Ok,
        r matches Ok(s) ==> s@ == decode_utf8(
            xml_document(datafile_items(crate::entry::entries_view(entries@), ext@, src@)),
        ),
{
    let mut writer = xml_sink();
    write_xml_header(&mut writer, src)?;
    let mut i: usize = 0;
    while i < entries.len()
        invariant
            i <= entries@.len(),
            xml_written(writer) == header_items(src@) + games_items(
                crate::entry::entries_view(entries@.subrange(0, i as int)),
                ext@,
            ),
        decreases entries.len() - i,
    {
        write_game(&mut writer, &entries[i], ext)?;
        proof {
            let es = crate::entry::entries_view(entries@.subrange(0, i + 1));
            assert(es.drop_last() =~= crate::entry::entries_view(entries@.subrange(0, i as int)));
            assert(es.last() == entries@[i as int]@);
        }
        i = i + 1;
    }
    lift(emit(&mut writer, &XmlEvent::End(bytes_vec("datafile"))))?;
    assert(entries@.subrange(0, i as int) =~= entries@);
    assert(xml_written(writer) =~= datafile_items(crate::entry::entries_view(entries@), ext@, src@));
    proof {
        lemma_datafile_items_valid(crate::entry::entries_view(entries@), ext@, src@);
        lemma_render_valid(datafile_items(crate::entry::entries_view(entries@), ext@, src@), false, 0);
    }
    let bytes = xml_bytes(writer);
    match string_from_utf8(bytes) {
        Some(s) => Ok(s),
        None => Err(XmlError::Utf8),
    }
}

} // verus!
