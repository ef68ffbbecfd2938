//! Safe pages: a title and a list of elements (headers, text, links), and
//! their rendering as the lines of a framed text box.

use vstd::prelude::*;
use vstd::utf8::{encode_utf8, decode_utf8, is_char_boundary};
use vstd::string::StringSliceAdditionalSpecFns;
use crate::text::{pad_right, pad_center, chars_of, push_padded_right, push_padded_center};

verus! {

/// One element of a page.
pub enum Element {
    Header(String),
    Text(String),
    Link { label: String, target_id: String },
}

/// An element, as plain sequences.
pub enum ElementModel {
    Header(Seq<char>),
    Text(Seq<char>),
    Link { label: Seq<char>, target_id: Seq<char> },
}

impl View for Element {
    type V = ElementModel;

    open spec fn view(&self) -> ElementModel {
        match self {
            Element::Header(t) => ElementModel::Header(t@),
            Element::Text(t) => ElementModel::Text(t@),
            Element::Link { label, target_id } => ElementModel::Link {
                label: label@,
                target_id: target_id@,
            },
        }
    }
}

/// A page: a title and its elements in order.
pub struct SafePage {
    pub title: String,
    pub elements: Vec<Element>,
}

/// The views of a list of elements.
pub open spec fn elements_view(v: Seq<Element>) -> Seq<ElementModel> {
    v.map_values(|e: Element| e@)
}

/// Widest text line, in bytes, before it is broken in two.
pub const TEXT_WIDTH: usize = 36;

/// Bytes of a link's target id that are shown.
pub const TARGET_ID_SHOWN: usize = 6;

/// The characters whose UTF-8 encoding is the first `n` bytes of `s`'s.
pub open spec fn byte_prefix(s: Seq<char>, n: int) -> Seq<char> {
    decode_utf8(encode_utf8(s).subrange(0, n))
}

/// The characters whose UTF-8 encoding is `s`'s from byte `n` on.
pub open spec fn byte_suffix(s: Seq<char>, n: int) -> Seq<char> {
    decode_utf8(encode_utf8(s).subrange(n, encode_utf8(s).len() as int))
}

/// Breaking a long text line on a character boundary loses nothing: the
/// two rendered halves are the text.
pub proof fn law_text_break_keeps_text(t: Seq<char>)
    requires
        renderable(ElementModel::Text(t)),
        encode_utf8(t).len() > TEXT_WIDTH,
    ensures
        byte_prefix(t, TEXT_WIDTH as int) + byte_suffix(t, TEXT_WIDTH as int) == t,
{
    vstd::utf8::encode_utf8_valid_utf8(t);
    vstd::utf8::decode_utf8_split(encode_utf8(t), TEXT_WIDTH as int);
    vstd::utf8::encode_utf8_decode_utf8(t);
}

/// A long text is shown whole on two framed lines: the first holds a part
/// of exactly the line width in bytes, the second holds all the rest, and
/// the two parts together are the text; a blank line follows.
pub proof fn law_long_text_shown_whole(t: Seq<char>)
    requires
        renderable(ElementModel::Text(t)),
        encode_utf8(t).len() > TEXT_WIDTH,
    ensures
        element_lines(ElementModel::Text(t)).len() == 3,
        element_lines(ElementModel::Text(t))[2] == blank_line(),
        exists|p: Seq<char>, q: Seq<char>|
            #![trigger text_line(p), text_line(q)]
            p + q == t && encode_utf8(p).len() == TEXT_WIDTH && element_lines(ElementModel::Text(t))[0]
                == text_line(p) && element_lines(ElementModel::Text(t))[1] == text_line(q),
{
    let bytes = encode_utf8(t);
    vstd::utf8::encode_utf8_valid_utf8(t);
    vstd::utf8::valid_utf8_split(bytes, TEXT_WIDTH as int);
    vstd::utf8::decode_utf8_encode_utf8(bytes.subrange(0, TEXT_WIDTH as int));
    law_text_break_keeps_text(t);
    let p = byte_prefix(t, TEXT_WIDTH as int);
    let q = byte_suffix(t, TEXT_WIDTH as int);
    assert(encode_utf8(p).len() == TEXT_WIDTH);
    assert(element_lines(ElementModel::Text(t))[0] == text_line(p));
    assert(element_lines(ElementModel::Text(t))[1] == text_line(q));
}

/// Whether an element can be rendered: a text longer than the line width
/// must break on a character boundary, and a link's target id must have a
/// character boundary where it is cut.
pub open spec fn renderable(e: ElementModel) -> bool {
    match e {
        ElementModel::Text(t) => encode_utf8(t).len() > TEXT_WIDTH ==> is_char_boundary(
            encode_utf8(t),
            TEXT_WIDTH as int,
        ),
        ElementModel::Link { target_id, .. } => is_char_boundary(
            encode_utf8(target_id),
            TARGET_ID_SHOWN as int,
        ),
        ElementModel::Header(_) => true,
    }
}

pub open spec fn top_line() -> Seq<char> {
    "╔════════════════════════════════════════╗"@
}

pub open spec fn rule_line() -> Seq<char> {
    "╠════════════════════════════════════════╣"@
}

pub open spec fn bottom_line() -> Seq<char> {
    "╚════════════════════════════════════════╝"@
}

pub open spec fn blank_line() -> Seq<char> {
    "║                                        ║"@
}

pub open spec fn title_line(title: Seq<char>) -> Seq<char> {
    "║ "@ + pad_center(title, 38) + " ║"@
}

pub open spec fn header_line(t: Seq<char>) -> Seq<char> {
    "║  [#] "@ + pad_right(t, 34) + "║"@
}

pub open spec fn text_line(t: Seq<char>) -> Seq<char> {
    "║  "@ + pad_right(t, 36) + "  ║"@
}

pub open spec fn link_line(label: Seq<char>, target_id: Seq<char>) -> Seq<char> {
    "║  >> 🔗 ["@ + label + "] ---> "@ + byte_prefix(target_id, TARGET_ID_SHOWN as int) + "  ║"@
}

/// The lines one element renders to.
pub open spec fn element_lines(e: ElementModel) -> Seq<Seq<char>> {
    match e {
        ElementModel::Header(t) => seq![header_line(t), blank_line()],
        ElementModel::Text(t) => if encode_utf8(t).len() > TEXT_WIDTH {
            seq![
                text_line(byte_prefix(t, TEXT_WIDTH as int)),
                text_line(byte_suffix(t, TEXT_WIDTH as int)),
                blank_line(),
            ]
        } else {
            seq![text_line(t), blank_line()]
        },
        ElementModel::Link { label, target_id } => seq![link_line(label, target_id)],
    }
}

/// The lines a page renders to: an empty line, the frame's top, the
/// centred title, a rule, each element's lines, the frame's bottom and an
/// empty line.
pub open spec fn page_lines(title: Seq<char>, elements: Seq<ElementModel>) -> Seq<Seq<char>> {
    seq![Seq::<char>::empty(), top_line(), title_line(title), rule_line()]
        + elements.map_values(|e: ElementModel| element_lines(e)).flatten() + seq![
        bottom_line(),
        Seq::<char>::empty(),
    ]
}

/// The views of a list of lines.
pub open spec fn lines_view(v: Seq<String>) -> Seq<Seq<char>> {
    v.map_values(|s: String| s@)
}

fn framed(left: &str, body: &[char], width: usize, right: &str, centred: bool) -> (r: String)
    ensures
        r@ == left@ + (if centred { pad_center(body@, width as nat) } else { pad_right(body@, width as nat) }) + right@,
{
    let mut s = String::new();
    s.append(left);
    if centred {
        push_padded_center(&mut s, body, width);
    } else {
        push_padded_right(&mut s, body, width);
    }
    s.append(right);
    s
}

proof fn lemma_split_views(s: &str, a: &str, b: &str, n: int)
    requires
        0 <= n <= s.spec_bytes().len(),
        a.spec_bytes() == s.spec_bytes().subrange(0, n),
        b.spec_bytes() == s.spec_bytes().subrange(n, s.spec_bytes().len() as int),
    ensures
        a@ == byte_prefix(s@, n),
        b@ == byte_suffix(s@, n),
{
    vstd::utf8::encode_utf8_decode_utf8(a@);
    vstd::utf8::encode_utf8_decode_utf8(b@);
}

/// Appends the lines of `e`.
fn push_element_lines(out: &mut Vec<String>, e: &Element)
    requires
        renderable(e@),
    ensures
        lines_view(final(out)@) == lines_view(old(out)@) + element_lines(e@),
{
    let ghost before = lines_view(out@);
    match e {
        Element::Header(text) => {
            let cs = chars_of(text.as_str());
            out.push(framed("║  [#] ", cs.as_slice(), 34, "║", false));
            out.push(String::from_str("║                                        ║"));
            assert(lines_view(out@) =~= before + seq![header_line(text@), blank_line()]);
            assert(lines_view(out@) =~= before + element_lines(e@));
        },
        Element::Text(text) => {
            let t = text.as_str();
            if t.as_bytes().len() > TEXT_WIDTH {
                let (a, b) = t.split_at(TEXT_WIDTH);
                proof {
                    lemma_split_views(t, a, b, TEXT_WIDTH as int);
                }
                let ca = chars_of(a);
                let cb = chars_of(b);
                out.push(framed("║  ", ca.as_slice(), 36, "  ║", false));
                out.push(framed("║  ", cb.as_slice(), 36, "  ║", false));
                out.push(String::from_str("║                                        ║"));
                assert(lines_view(out@) =~= before + seq![
                    text_line(byte_prefix(text@, TEXT_WIDTH as int)),
                    text_line(byte_suffix(text@, TEXT_WIDTH as int)),
                    blank_line(),
                ]);
                assert(lines_view(out@) =~= before + element_lines(e@));
            } else {
                let cs = chars_of(t);
                out.push(framed("║  ", cs.as_slice(), 36, "  ║", false));
                out.push(String::from_str("║                                        ║"));
                assert(lines_view(out@) =~= before + seq![text_line(text@), blank_line()]);
                assert(lines_view(out@) =~= before + element_lines(e@));
            }
        },
        Element::Link { label, target_id } => {
            let t = target_id.as_str();
            proof {
                vstd::utf8::encode_utf8_valid_utf8(t@);
            }
            let (a, b) = t.split_at(TARGET_ID_SHOWN);
            proof {
                lemma_split_views(t, a, b, TARGET_ID_SHOWN as int);
            }
            let mut s = String::from_str("║  >> 🔗 [");
            s.append(label.as_str());
            s.append("] ---> ");
            s.append(a);
            s.append("  ║");
            assert(s@ =~= link_line(label@, target_id@));
            out.push(s);
            assert(lines_view(out@) =~= before + seq![link_line(label@, target_id@)]);
            assert(lines_view(out@) =~= before + element_lines(e@));
        },
    }
}

impl SafePage {
    /// An empty page titled `title`.
    pub fn new(title: &str) -> (p: Self)
        ensures
            p.title@ == title@,
            p.elements@.len() == 0,
    {
        SafePage { title: String::from_str(title), elements: Vec::new() }
    }

    /// The page with `elem` added at the end.
    pub fn add(self, elem: Element) -> (p: Self)
        ensures
            p.title == self.title,
            p.elements@ == self.elements@.push(elem),
    {
        let mut p = self;
        p.elements.push(elem);
        p
    }

    /// Whether every element can be rendered.
    pub fn is_renderable(&self) -> (r: bool)
        ensures
            r == forall|i: int| 0 <= i < self.elements@.len() ==> renderable(#[trigger] self.elements@[i]@),
    {
        let mut i: usize = 0;
        while i < self.elements.len()
            invariant
                i <= self.elements@.len(),
                forall|j: int| 0 <= j < i ==> renderable(#[trigger] self.elements@[j]@),
            decreases self.elements@.len() - i,
        {
            let ok = match &self.elements[i] {
                Element::Text(t) => {
                    let s = t.as_str();
                    proof {
                        vstd::utf8::encode_utf8_valid_utf8(s@);
                    }
                    !(s.as_bytes().len() > TEXT_WIDTH) || s.is_char_boundary(TEXT_WIDTH)
                },
                Element::Link { target_id, .. } => {
                    let s = target_id.as_str();
                    proof {
                        vstd::utf8::encode_utf8_valid_utf8(s@);
                    }
                    s.is_char_boundary(TARGET_ID_SHOWN)
                },
                Element::Header(_) => true,
            };
            assert(ok == renderable(self.elements@[i as int]@));
            if !ok {
                return false;
            }
            i += 1;
        }
        true
    }

    /// The lines the page renders to, top to bottom.
    pub fn render_lines(&self) -> (r: Vec<String>)
        requires
            forall|i: int| 0 <= i < self.elements@.len() ==> renderable(#[trigger] self.elements@[i]@),
        ensures
            lines_view(r@) == page_lines(self.title@, elements_view(self.elements@)),
    {
        let ghost els = elements_view(self.elements@);
        let ghost parts = els.map_values(|e: ElementModel| element_lines(e));
        let mut out: Vec<String> = Vec::new();
        out.push(String::new());
        out.push(String::from_str("╔════════════════════════════════════════╗"));
        let tc = chars_of(self.title.as_str());
        out.push(framed("║ ", tc.as_slice(), 38, " ║", true));
        out.push(String::from_str("╠════════════════════════════════════════╣"));
        let ghost head = lines_view(out@);
        assert(head =~= seq![Seq::<char>::empty(), top_line(), title_line(self.title@), rule_line()]);
        let mut i: usize = 0;
        assert(parts.take(0) =~= Seq::<Seq<Seq<char>>>::empty());
        while i < self.elements.len()
            invariant
                i <= self.elements@.len(),
                els == elements_view(self.elements@),
                parts == els.map_values(|e: ElementModel| element_lines(e)),
                forall|j: int| 0 <= j < self.elements@.len() ==> renderable(#[trigger] self.elements@[j]@),
                lines_view(out@) == head + parts.take(i as int).flatten_alt(),
            decreases self.elements@.len() - i,
        {
            push_element_lines(&mut out, &self.elements[i]);
            assert(parts.take(i + 1).drop_last() =~= parts.take(i as int));
            assert(parts[i as int] == element_lines(self.elements@[i as int]@));
            i += 1;
        }
        assert(parts.take(i as int) =~= parts);
        proof {
            parts.lemma_flatten_and_flatten_alt_are_equivalent();
        }
        let ghost mid = lines_view(out@);
        out.push(String::from_str("╚════════════════════════════════════════╝"));
        out.push(String::new());
        assert(lines_view(out@) =~= mid + seq![bottom_line(), Seq::<char>::empty()]);
        out
    }
}

} // verus!
