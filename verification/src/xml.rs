//! Pretty-printing of XML text, for logs and test output.

use vstd::prelude::*;
use crate::text::{
    from_chars, join, join_strings, lemma_chars_deep_view, lemma_split_nonempty, slice_chars, split,
    split_chars, to_chars,
};
use crate::views::{lemma_deep_view_index, lemma_push_deep_view};

verus! {

/// Whether `xmltree` reads `xml` as a document and writes it out again with
/// the given indentation.
pub uninterp spec fn xml_accepted(xml: Seq<char>, indent: Seq<char>) -> bool;

/// Reads `xml` with `xmltree::Element::parse` and writes the tree out with
/// `xmltree::Element::write_with_config`, indented by `indent` and without a
/// document declaration. Whether this succeeds is given a name. Nothing is
/// said of the text: `xmltree` keeps attributes in a hash map, so their order
/// in the output is not fixed.
#[verifier::external_body]
fn emit_xml(xml: &str, indent: &str) -> (out: Result<String, ()>)
    ensures
        out is Ok <==> xml_accepted(xml@, indent@),
{
    let config = xmltree::EmitterConfig::new()
        .indent_string(indent.to_string())
        .write_document_declaration(false)
        .perform_indent(true);
    let mut bytes = Vec::with_capacity(xml.len());
    let tree = xmltree::Element::parse(xml.as_bytes()).map_err(|_| ())?;
    tree.write_with_config(&mut bytes, config).map_err(|_| ())?;
    String::from_utf8(bytes).map_err(|_| ())
}

/// `line` without the carriage return at its end, if it has one.
pub open spec fn without_return(line: Seq<char>) -> Seq<char> {
    if line.len() > 0 && line.last() == '\r' {
        line.drop_last()
    } else {
        line
    }
}

/// The lines of `text`. A line ends with a line feed, or a carriage return
/// and a line feed, neither of which belongs to it; what follows the last
/// line feed is a line as it stands, unless it is empty.
pub open spec fn lines(text: Seq<char>) -> Seq<Seq<char>> {
    let pieces = split(text, '\n');
    let ended = Seq::new((pieces.len() - 1) as nat, |i: int| without_return(pieces[i]));
    if pieces.last().len() == 0 {
        ended
    } else {
        ended.push(pieces.last())
    }
}

/// `lines`, each with `prefix` before it.
pub open spec fn prefixed(lines: Seq<Seq<char>>, prefix: Seq<char>) -> Seq<Seq<char>> {
    Seq::new(lines.len(), |i: int| prefix + lines[i])
}

/// `text` with `prefix` before each line, the lines parted by single line feeds.
pub open spec fn indented(text: Seq<char>, prefix: Seq<char>) -> Seq<char> {
    join(prefixed(lines(text), prefix), "\n"@)
}

/// Puts `prefix` before each line of `text`.
pub fn indent_lines(text: &str, prefix: &str) -> (out: String)
    ensures
        out@ == indented(text@, prefix@),
{
    let pieces = split_chars(&to_chars(text), '\n');
    let ghost all = pieces.deep_view();
    let ghost wanted = prefixed(lines(text@), prefix@);
    proof {
        lemma_split_nonempty(text@, '\n');
        assert forall|k: int| 0 <= k < pieces.len() implies all[k] == (#[trigger] pieces@[k])@ by {
            lemma_deep_view_index(pieces, k);
            lemma_chars_deep_view(pieces@[k]);
        }
    }
    let mut out: Vec<String> = Vec::new();
    let mut i: usize = 0;
    while i < pieces.len()
        invariant
            i <= pieces.len(),
            pieces.len() >= 1,
            all == pieces.deep_view(),
            all == split(text@, '\n'),
            wanted == prefixed(lines(text@), prefix@),
            forall|k: int| 0 <= k < pieces.len() ==> all[k] == (#[trigger] pieces@[k])@,
            out.deep_view().len() == if i < pieces.len() || all.last().len() > 0 {
                i as int
            } else {
                i - 1
            },
            forall|k: int| 0 <= k < out.deep_view().len() ==> out.deep_view()[k] == wanted[k],
        decreases pieces.len() - i,
    {
        let piece = &pieces[i];
        let last = i + 1 == pieces.len();
        let end: usize = if !last && piece.len() > 0 && piece[piece.len() - 1] == '\r' {
            piece.len() - 1
        } else {
            piece.len()
        };
        if !last || piece.len() > 0 {
            let mut line = String::from_str(prefix);
            let kept = from_chars(&slice_chars(piece, 0, end));
            line.append(kept.as_str());
            proof {
                assert(piece@.subrange(0, end as int) == if last {
                    piece@
                } else {
                    without_return(piece@)
                });
            }
            let ghost before = out;
            let ghost pushed = line;
            out.push(line);
            proof {
                lemma_push_deep_view(before, out, pushed);
            }
        }
        i += 1;
    }
    assert(out.deep_view() =~= wanted);
    join_strings(&out, "\n")
}

/// `xml` pretty-printed, indented by four spaces.
pub fn format_xml(xml: &str) -> (out: Result<String, ()>)
    ensures
        out is Ok <==> xml_accepted(xml@, "    "@),
{
    emit_xml(xml, "    ")
}

/// `xml` pretty-printed, for text that is known to be well formed. The
/// result is the text that `xmltree` wrote, of which nothing is stated: the
/// order of the attributes in it is not fixed.
pub fn format_xml_unwrap(xml: &str) -> (out: String)
    requires
        xml_accepted(xml@, "    "@),
{
    format_xml(xml).unwrap()
}

/// `xml` pretty-printed, with `indent` before each line.
pub fn format_xml_with_indent(xml: &str, indent: &str) -> (out: Result<String, ()>)
    ensures
        out is Ok <==> xml_accepted(xml@, "    "@),
        out matches Ok(text) ==> exists|plain: Seq<char>| text@ == indented(plain, indent@),
{
    match format_xml(xml) {
        Ok(plain) => Ok(indent_lines(plain.as_str(), indent)),
        Err(e) => Err(e),
    }
}

/// `xml` pretty-printed, with `indent` before each line, for text that is
/// known to be well formed.
pub fn format_xml_with_indent_unwrap(xml: &str, indent: &str) -> (out: String)
    requires
        xml_accepted(xml@, "    "@),
    ensures
        exists|plain: Seq<char>| out@ == indented(plain, indent@),
{
    let plain = format_xml_unwrap(xml);
    indent_lines(plain.as_str(), indent)
}

/// Tests whether `xml` can be pretty-printed and, where it can, returns it
/// so, with `indent` before each line. `None` where it cannot.
pub fn format_xml_with_indent_checked(xml: &str, indent: &str) -> (out: Option<String>)
    ensures
        out is Some <==> xml_accepted(xml@, "    "@),
        out matches Some(text) ==> exists|plain: Seq<char>| text@ == indented(plain, indent@),
{
    if format_xml(xml).is_ok() {
        Some(format_xml_with_indent_unwrap(xml, indent))
    } else {
        None
    }
}

} // verus!
