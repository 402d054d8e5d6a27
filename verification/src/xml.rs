//! Open-PSA MEF XML output.
//!
//! A model is first laid out as a list of XML events ([`XmlEvent`]: the
//! declaration, start tags, empty tags and end tags, in document order); the
//! list is then handed to `quick_xml`'s indenting writer, which renders each
//! event on a line of its own.  The event list and its rendering are stated
//! exactly: the events' texts in order, every one but the first after a line
//! break and two spaces per open start tag.
//!
//! ```xml
//! <?xml version="1.0" encoding="UTF-8"?>
//! <opsa-mef version="2.0">
//!   <define-fault-tree name="…">
//!     <top-gate name="…"/>
//!     <define-gate name="…" type="and|or|kofn" [k="…"]>
//!       <input ref="…"/>
//!     </define-gate>
//!     <define-basic-event name="…">
//!       <float value="…"/>
//!     </define-basic-event>
//!     <define-house-event name="…" state="true|false"/>
//!   </define-fault-tree>
//!   <define-event-tree name="…">
//!     <initiating-event name="…" top-gate-ref="…"/>
//!     <branch-set name="…">
//!       <functional-event name="…" fault-tree-ref="…"/>
//!       <sequence id="…">
//!         <outcome functional-event-ref="…" state="success|failure"/>
//!       </sequence>
//!     </branch-set>
//!   </define-event-tree>
//! </opsa-mef>
//! ```

use vstd::prelude::*;
use vstd::utf8::*;

use quick_xml::events::{BytesDecl, BytesEnd, BytesStart, Event};
use quick_xml::Writer;

use crate::fault_tree::FaultTreeError;

verus! {

// ─── XML events ──────────────────────────────────────────────────────────────

/// A tag: its name and its attributes, as `(key, value)` pairs in order.
#[derive(Debug, Clone, PartialEq, Eq)]
pub struct XmlTag {
    pub name: String,
    pub attributes: Vec<(String, String)>,
}

/// One piece of an XML document.
#[derive(Debug, Clone, PartialEq, Eq)]
pub enum XmlEvent {
    /// `<?xml version="1.0" encoding="UTF-8"?>`
    Declaration,
    /// `<name attributes…>`
    Start(XmlTag),
    /// `<name attributes…/>`
    Empty(XmlTag),
    /// `</name>`
    End(String),
}

/// The view of an [`XmlEvent`]: its names and attributes as character
/// sequences.
pub enum XmlItem {
    Declaration,
    Start(Seq<char>, Seq<(Seq<char>, Seq<char>)>),
    Empty(Seq<char>, Seq<(Seq<char>, Seq<char>)>),
    End(Seq<char>),
}

/// The character sequences of a list of attributes.
pub open spec fn attributes_view(a: Seq<(String, String)>) -> Seq<(Seq<char>, Seq<char>)> {
    a.map_values(|p: (String, String)| (p.0@, p.1@))
}

impl View for XmlEvent {
    type V = XmlItem;

    open spec fn view(&self) -> XmlItem {
        match self {
            XmlEvent::Declaration => XmlItem::Declaration,
            XmlEvent::Start(t) => XmlItem::Start(t.name@, attributes_view(t.attributes@)),
            XmlEvent::Empty(t) => XmlItem::Empty(t.name@, attributes_view(t.attributes@)),
            XmlEvent::End(n) => XmlItem::End(n@),
        }
    }
}

/// The views of a list of events.
pub open spec fn items(events: Seq<XmlEvent>) -> Seq<XmlItem> {
    events.map_values(|e: XmlEvent| e@)
}

// ─── The text of an event ────────────────────────────────────────────────────

/// An attribute value with `<`, `>`, `&`, `'` and `"` replaced by their
/// entities.
pub open spec fn xml_escaped(s: Seq<char>) -> Seq<char>
    decreases s.len(),
{
    if s.len() == 0 {
        Seq::empty()
    } else {
        let c = s.last();
        xml_escaped(s.drop_last()) + if c == '<' {
            "&lt;"@
        } else if c == '>' {
            "&gt;"@
        } else if c == '&' {
            "&amp;"@
        } else if c == '\'' {
            "&apos;"@
        } else if c == '"' {
            "&quot;"@
        } else {
            seq![c]
        }
    }
}

/// The attributes of a tag as written: ` key="value"` each, values escaped.
pub open spec fn attributes_text(a: Seq<(Seq<char>, Seq<char>)>) -> Seq<char>
    decreases a.len(),
{
    if a.len() == 0 {
        Seq::empty()
    } else {
        attributes_text(a.drop_last()) + " "@ + a.last().0 + "=\""@ + xml_escaped(a.last().1) + "\""@
    }
}

/// The text of an event.
pub open spec fn item_text(e: XmlItem) -> Seq<char> {
    match e {
        XmlItem::Declaration => "<?xml version=\"1.0\" encoding=\"UTF-8\"?>"@,
        XmlItem::Start(n, a) => "<"@ + n + attributes_text(a) + ">"@,
        XmlItem::Empty(n, a) => "<"@ + n + attributes_text(a) + "/>"@,
        XmlItem::End(n) => "</"@ + n + ">"@,
    }
}

/// What the indenting writer puts before a tag: when a line break is due, a
/// line break and `n` indentation characters `c`; else nothing.
pub open spec fn line_pad(line_break: bool, n: nat, c: u8) -> Seq<char> {
    if line_break {
        seq!['\n'] + Seq::new(n, |i: int| c as char)
    } else {
        Seq::empty()
    }
}

/// The indentation after the events, starting from `d` characters: a start
/// tag opens a level of `step` characters, an end tag closes one (never
/// going below none).
pub open spec fn indent_from(d: nat, events: Seq<XmlItem>, step: nat) -> nat
    decreases events.len(),
{
    if events.len() == 0 {
        d
    } else {
        let before = indent_from(d, events.drop_last(), step);
        match events.last() {
            XmlItem::Start(_, _) => before + step,
            XmlItem::End(_) => if before >= step {
                (before - step) as nat
            } else {
                0
            },
            _ => before,
        }
    }
}

/// The document that an indenting writer with indentation character `c`
/// and level `step` makes of the events: each event's text, preceded, for
/// every event but the first, by a line break and the indentation at that
/// event (an end tag's level already closed).
pub open spec fn rendered(events: Seq<XmlItem>, step: nat, c: u8) -> Seq<char>
    decreases events.len(),
{
    if events.len() == 0 {
        Seq::empty()
    } else {
        let before = events.drop_last();
        let n = match events.last() {
            XmlItem::End(_) => indent_from(0, events, step),
            _ => indent_from(0, before, step),
        };
        rendered(before, step, c) + line_pad(before.len() > 0, n, c) + item_text(events.last())
    }
}

/// Starting from `d` characters, the indentation stays at most `bound`
/// after every prefix of the events.
pub open spec fn indent_within(d: nat, events: Seq<XmlItem>, step: nat, bound: nat) -> bool {
    forall|k: int| 0 <= k <= events.len() ==> indent_from(d, #[trigger] events.take(k), step) <= bound
}

/// Indentation after two runs of events is that after the second, started
/// where the first ended.
pub(crate) proof fn lemma_indent_concat(d: nat, a: Seq<XmlItem>, b: Seq<XmlItem>, step: nat)
    ensures
        indent_from(d, a + b, step) == indent_from(indent_from(d, a, step), b, step),
    decreases b.len(),
{
    if b.len() == 0 {
        assert(a + b =~= a);
    } else {
        assert((a + b).drop_last() =~= a + b.drop_last());
        assert((a + b).last() == b.last());
        lemma_indent_concat(d, a, b.drop_last(), step);
    }
}

/// Runs of events that each keep within a bound keep within it together.
pub(crate) proof fn lemma_within_concat(d: nat, a: Seq<XmlItem>, b: Seq<XmlItem>, step: nat, bound: nat)
    requires
        indent_within(d, a, step, bound),
        indent_within(indent_from(d, a, step), b, step, bound),
    ensures
        indent_within(d, a + b, step, bound),
{
    assert forall|k: int| 0 <= k <= (a + b).len() implies indent_from(d, #[trigger] (a + b).take(k), step)
        <= bound by {
        if k <= a.len() {
            assert((a + b).take(k) =~= a.take(k));
        } else {
            assert((a + b).take(k) =~= a + b.take(k - a.len()));
            lemma_indent_concat(d, a, b.take(k - a.len()), step);
            assert(indent_from(indent_from(d, a, step), b.take(k - a.len()), step) <= bound);
        }
    }
}

/// Declarations and empty tags leave the indentation as it is.
pub(crate) proof fn lemma_indent_flat(d: nat, s: Seq<XmlItem>, step: nat, bound: nat)
    requires
        forall|i: int| 0 <= i < s.len() ==> (#[trigger] s[i]) is Declaration || s[i] is Empty,
        d <= bound,
    ensures
        indent_from(d, s, step) == d,
        indent_within(d, s, step, bound),
    decreases s.len(),
{
    if s.len() > 0 {
        lemma_indent_flat(d, s.drop_last(), step, bound);
        assert(s.last() == s[s.len() - 1]);
    }
    assert forall|k: int| 0 <= k <= s.len() implies indent_from(d, #[trigger] s.take(k), step) <= bound by {
        if k < s.len() {
            lemma_indent_flat(d, s.take(k), step, bound);
        } else {
            assert(s.take(k) =~= s);
        }
    }
}

/// One event: a start tag opens a level, an end tag closes one.
pub(crate) proof fn lemma_indent_one(d: nat, x: XmlItem, step: nat, bound: nat)
    requires
        d <= bound,
        x is Start ==> d + step <= bound,
    ensures
        indent_from(d, seq![x], step) == match x {
            XmlItem::Start(_, _) => d + step,
            XmlItem::End(_) => if d >= step {
                (d - step) as nat
            } else {
                0
            },
            _ => d,
        },
        indent_within(d, seq![x], step, bound),
{
    assert(seq![x].drop_last() =~= Seq::<XmlItem>::empty());
    assert(indent_from(d, Seq::<XmlItem>::empty(), step) == d);
    assert(seq![x].take(0) =~= Seq::<XmlItem>::empty());
    assert(seq![x].take(1) =~= seq![x]);
    assert forall|k: int| 0 <= k <= 1 implies indent_from(d, #[trigger] seq![x].take(k), step) <= bound by {
        if k == 0 {
            assert(seq![x].take(k) =~= Seq::<XmlItem>::empty());
        } else {
            assert(seq![x].take(k) =~= seq![x]);
        }
    }
}

// ─── quick_xml ───────────────────────────────────────────────────────────────

#[verifier::external_type_specification]
#[verifier::external_body]
#[verifier::reject_recursive_types(W)]
pub struct ExXmlWriter<W>(Writer<W>);

#[verifier::external_type_specification]
#[verifier::external_body]
pub struct ExXmlError(quick_xml::Error);

/// The bytes that a writer into a vector has written.
pub uninterp spec fn xml_buffer(w: Writer<Vec<u8>>) -> Seq<u8>;

/// The indentation byte that a writer was made with.
pub uninterp spec fn xml_indent_byte(w: Writer<Vec<u8>>) -> u8;

/// The number of indentation bytes of one nesting level that a writer was
/// made with.
pub uninterp spec fn xml_indent_size(w: Writer<Vec<u8>>) -> nat;

/// The writer's current indentation, in indentation bytes.
pub uninterp spec fn xml_indent_len(w: Writer<Vec<u8>>) -> nat;

/// Whether the writer puts a line break before its next tag.
pub uninterp spec fn xml_line_break(w: Writer<Vec<u8>>) -> bool;

/// `Writer::new_with_indent(Vec::new(), b' ', 2)`: a writer into an empty
/// vector that indents nested tags by two spaces.
#[verifier::external_body]
fn new_writer() -> (w: Writer<Vec<u8>>)
    ensures
        xml_buffer(w) == Seq::<u8>::empty(),
        xml_indent_byte(w) == 32,
        xml_indent_size(w) == 2,
        xml_indent_len(w) == 0,
        !xml_line_break(w),
{
    Writer::new_with_indent(Vec::new(), b' ', 2)
}

/// `Writer::write_event` with `Event::Decl(BytesDecl::new("1.0",
/// Some("UTF-8"), None))`.  `write_wrapped` first writes, when a line break
/// is due (after every event but a text), a line break and the current
/// indentation; then `<?xml version="1.0" encoding="UTF-8"?>`, UTF-8 encoded.
/// Afterwards a line break is due.  `write_event` fails only when the inner
/// writer's `write_all` does, and writing into a `Vec<u8>` never fails, so
/// this and the other writes below always succeed.
#[verifier::external_body]
fn write_declaration(w: &mut Writer<Vec<u8>>) -> (r: Result<(), quick_xml::Error>)
    requires
        xml_indent_byte(*old(w)) < 128,
    ensures
        r is Ok,
        xml_indent_byte(*final(w)) == xml_indent_byte(*old(w)),
        xml_indent_size(*final(w)) == xml_indent_size(*old(w)),
        xml_indent_len(*final(w)) == xml_indent_len(*old(w)),
        xml_line_break(*final(w)),
        xml_buffer(*final(w)) == xml_buffer(*old(w)) + encode_utf8(
            line_pad(xml_line_break(*old(w)), xml_indent_len(*old(w)), xml_indent_byte(*old(w)))
                + item_text(XmlItem::Declaration),
        ),
{
    w.write_event(Event::Decl(BytesDecl::new("1.0", Some("UTF-8"), None)))
}

/// `Writer::write_event` with `Event::Start(BytesStart::new(name)
/// .with_attributes(..))`.  `BytesStart` writes the name as it is and each
/// attribute as ` key="value"`, the value escaped by `escape::escape`.  The
/// writer appends the line pad and the start tag, UTF-8 encoded, then grows
/// its indentation by one level (`current_indent_len += indent_size`, which
/// must not overflow).
#[verifier::external_body]
fn write_start(w: &mut Writer<Vec<u8>>, name: &str, attributes: &Vec<(String, String)>) -> (r: Result<
    (),
    quick_xml::Error,
>)
    requires
        xml_indent_byte(*old(w)) < 128,
        xml_indent_len(*old(w)) + xml_indent_size(*old(w)) <= usize::MAX,
    ensures
        r is Ok,
        xml_indent_byte(*final(w)) == xml_indent_byte(*old(w)),
        xml_indent_size(*final(w)) == xml_indent_size(*old(w)),
        xml_indent_len(*final(w)) == xml_indent_len(*old(w)) + xml_indent_size(*old(w)),
        xml_line_break(*final(w)),
        xml_buffer(*final(w)) == xml_buffer(*old(w)) + encode_utf8(
            line_pad(xml_line_break(*old(w)), xml_indent_len(*old(w)), xml_indent_byte(*old(w)))
                + item_text(XmlItem::Start(name@, attributes_view(attributes@))),
        ),
{
    let tag = BytesStart::new(name).with_attributes(
        attributes.iter().map(|a| (a.0.as_str(), a.1.as_str())),
    );
    w.write_event(Event::Start(tag))
}

/// `Writer::write_event` with `Event::Empty(BytesStart::new(name)
/// .with_attributes(..))`, written as `write_start` writes a start tag but
/// closed with `/>`, and with the indentation unchanged.
#[verifier::external_body]
fn write_empty(w: &mut Writer<Vec<u8>>, name: &str, attributes: &Vec<(String, String)>) -> (r: Result<
    (),
    quick_xml::Error,
>)
    requires
        xml_indent_byte(*old(w)) < 128,
    ensures
        r is Ok,
        xml_indent_byte(*final(w)) == xml_indent_byte(*old(w)),
        xml_indent_size(*final(w)) == xml_indent_size(*old(w)),
        xml_indent_len(*final(w)) == xml_indent_len(*old(w)),
        xml_line_break(*final(w)),
        xml_buffer(*final(w)) == xml_buffer(*old(w)) + encode_utf8(
            line_pad(xml_line_break(*old(w)), xml_indent_len(*old(w)), xml_indent_byte(*old(w)))
                + item_text(XmlItem::Empty(name@, attributes_view(attributes@))),
        ),
{
    let tag = BytesStart::new(name).with_attributes(
        attributes.iter().map(|a| (a.0.as_str(), a.1.as_str())),
    );
    w.write_event(Event::Empty(tag))
}

/// `Writer::write_event` with `Event::End(BytesEnd::new(name))`.  The writer
/// first shrinks its indentation by one level (`saturating_sub`), then
/// appends the line pad at that indentation and `</name>`, UTF-8 encoded.
#[verifier::external_body]
fn write_end(w: &mut Writer<Vec<u8>>, name: &str) -> (r: Result<(), quick_xml::Error>)
    requires
        xml_indent_byte(*old(w)) < 128,
    ensures
        r is Ok,
        xml_indent_byte(*final(w)) == xml_indent_byte(*old(w)),
        xml_indent_size(*final(w)) == xml_indent_size(*old(w)),
        xml_indent_len(*final(w)) == if xml_indent_len(*old(w)) >= xml_indent_size(*old(w)) {
            (xml_indent_len(*old(w)) - xml_indent_size(*old(w))) as nat
        } else {
            0
        },
        xml_line_break(*final(w)),
        xml_buffer(*final(w)) == xml_buffer(*old(w)) + encode_utf8(
            line_pad(xml_line_break(*old(w)), xml_indent_len(*final(w)), xml_indent_byte(*old(w)))
                + item_text(XmlItem::End(name@)),
        ),
{
    w.write_event(Event::End(BytesEnd::new(name)))
}

/// `Writer::into_inner`: the vector written into.
#[verifier::external_body]
fn written_bytes(w: Writer<Vec<u8>>) -> (b: Vec<u8>)
    ensures
        b@ == xml_buffer(w),
{
    w.into_inner()
}

/// The description of a `quick_xml` error (`ToString::to_string`).
#[verifier::external_body]
fn xml_error_text(e: &quick_xml::Error) -> String {
    e.to_string()
}

/// `String::from_utf8`: the text the bytes encode, or nothing when they are
/// not valid UTF-8.
#[verifier::external_body]
fn utf8_text(bytes: Vec<u8>) -> (r: Option<String>)
    ensures
        r is Some <==> valid_utf8(bytes@),
        r matches Some(s) ==> s@ == decode_utf8(bytes@),
{
    String::from_utf8(bytes).ok()
}

// ─── Rendering ───────────────────────────────────────────────────────────────

proof fn lemma_encode_utf8_concat(a: Seq<char>, b: Seq<char>)
    ensures
        encode_utf8(a + b) == encode_utf8(a) + encode_utf8(b),
    decreases a.len(),
{
    if a.len() > 0 {
        lemma_encode_utf8_concat(a.drop_first(), b);
        assert((a + b).drop_first() =~= a.drop_first() + b);
        assert(encode_utf8(a) + encode_utf8(b) =~= encode_scalar(a[0] as u32) + (encode_utf8(
            a.drop_first(),
        ) + encode_utf8(b)));
    } else {
        assert(a + b =~= b);
        assert(encode_utf8(a) =~= Seq::<u8>::empty());
        assert(encode_utf8(a) + encode_utf8(b) =~= encode_utf8(b));
    }
}

/// Renders `events` with `quick_xml`'s writer, indenting nested tags by two
/// spaces: each event on a line of its own, indented two spaces per open
/// start tag.  Writing into memory does not fail; the writer's indentation
/// must stay within `usize`.
pub fn render_xml(events: &Vec<XmlEvent>) -> (r: Result<String, FaultTreeError>)
    requires
        indent_within(0, items(events@), 2, (usize::MAX - 2) as nat),
    ensures
        r matches Ok(s) && s@ == rendered(items(events@), 2, 32),
{
    let mut w = new_writer();
    let ghost all = items(events@);
    assert(all.take(0) =~= Seq::<XmlItem>::empty());
    let mut i: usize = 0;
    while i < events.len()
        invariant
            i <= events@.len(),
            all == items(events@),
            indent_within(0, all, 2, (usize::MAX - 2) as nat),
            xml_indent_byte(w) == 32,
            xml_indent_size(w) == 2,
            xml_indent_len(w) == indent_from(0, all.take(i as int), 2),
            xml_line_break(w) == (i > 0),
            xml_buffer(w) == encode_utf8(rendered(all.take(i as int), 2, 32)),
        decreases events@.len() - i,
    {
        let ghost before = w;
        let ghost done = all.take(i + 1);
        proof {
            assert(done.drop_last() =~= all.take(i as int));
            assert(done.last() == all[i as int]);
            assert(all[i as int] == events@[i as int]@);
            assert(indent_from(0, all.take(i as int), 2) <= usize::MAX - 2);
        }
        let written = match &events[i] {
            XmlEvent::Declaration => write_declaration(&mut w),
            XmlEvent::Start(t) => write_start(&mut w, t.name.as_str(), &t.attributes),
            XmlEvent::Empty(t) => write_empty(&mut w, t.name.as_str(), &t.attributes),
            XmlEvent::End(n) => write_end(&mut w, n.as_str()),
        };
        match written {
            Ok(()) => {},
            Err(e) => {
                return Err(FaultTreeError::Xml(xml_error_text(&e)));
            },
        }
        proof {
            let item = all[i as int];
            let n = match item {
                XmlItem::End(_) => indent_from(0, done, 2),
                _ => indent_from(0, all.take(i as int), 2),
            };
            let pad = line_pad(i > 0, n, 32);
            assert(xml_buffer(w) == xml_buffer(before) + encode_utf8(pad + item_text(item)));
            lemma_encode_utf8_concat(rendered(all.take(i as int), 2, 32), pad + item_text(item));
            assert(rendered(done, 2, 32) =~= rendered(all.take(i as int), 2, 32) + (pad + item_text(item)));
        }
        i = i + 1;
    }
    assert(all.take(events@.len() as int) =~= all);
    let bytes = written_bytes(w);
    proof {
        encode_utf8_valid_utf8(rendered(all, 2, 32));
        encode_utf8_decode_utf8(rendered(all, 2, 32));
    }
    match utf8_text(bytes) {
        Some(s) => Ok(s),
        None => Err(FaultTreeError::Utf8(String::new())),
    }
}

} // verus!
