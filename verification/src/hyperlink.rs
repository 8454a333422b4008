//! Hyperlink targets of cells.
//!
//! Targets come from programs that run inside a pane, so control characters are
//! taken out of them before they are written into an escape sequence.

use vstd::prelude::*;

use crate::protocol;
use crate::protocol::{CellData, FrameData};

verus! {

/// The C0 and C1 control characters and DEL: general category Cc.
pub open spec fn is_control_char(ch: char) -> bool {
    ch <= '\u{1f}' || '\u{7f}' <= ch <= '\u{9f}'
}

/// Whether a character is a control character. ESC and BEL are among them.
pub fn is_control(ch: char) -> (res: bool)
    ensures
        res == is_control_char(ch),
{
    ch <= '\u{1f}' || ('\u{7f}' <= ch && ch <= '\u{9f}')
}

/// `uri` without its control characters.
pub open spec fn without_control(uri: Seq<char>) -> Seq<char> {
    uri.filter(|ch: char| !is_control_char(ch))
}

/// The target that is written for `uri`; there is none if nothing printable is left.
pub open spec fn sanitized(uri: Seq<char>) -> Option<Seq<char>> {
    if without_control(uri).len() == 0 {
        None
    } else {
        Some(without_control(uri))
    }
}

/// The raw target that a cell points to. A cell whose index lies outside the frame's
/// table has none.
pub open spec fn raw_link(frame: protocol::FrameView, cell: protocol::CellView) -> Option<
    Seq<char>,
> {
    match cell.hyperlink {
        Some(i) => if i < frame.hyperlinks.len() {
            Some(frame.hyperlinks[i as int])
        } else {
            None
        },
        None => None,
    }
}

/// The target that is written for a cell.
pub open spec fn cell_link(frame: protocol::FrameView, cell: protocol::CellView) -> Option<
    Seq<char>,
> {
    match raw_link(frame, cell) {
        Some(uri) => sanitized(uri),
        None => None,
    }
}

/// The value of an optional string.
pub open spec fn text_option(text: Option<String>) -> Option<Seq<char>> {
    match text {
        Some(s) => Some(s@),
        None => None,
    }
}

/// The value of an optional string slice.
pub open spec fn str_option(text: Option<&str>) -> Option<Seq<char>> {
    match text {
        Some(s) => Some(s@),
        None => None,
    }
}

/// The values of a list of optional strings.
pub open spec fn text_options(texts: Seq<Option<String>>) -> Seq<Option<Seq<char>>> {
    Seq::new(texts.len(), |i: int| text_option(texts[i]))
}

/// The written targets of a whole table.
pub open spec fn sanitized_table(uris: Seq<Seq<char>>) -> Seq<Option<Seq<char>>> {
    Seq::new(uris.len(), |i: int| sanitized(uris[i]))
}

/// The entry of a sanitized table that a cell points to.
pub open spec fn table_link(table: Seq<Option<Seq<char>>>, cell: protocol::CellView) -> Option<
    Seq<char>,
> {
    match cell.hyperlink {
        Some(i) => if i < table.len() {
            table[i as int]
        } else {
            None
        },
        None => None,
    }
}

/// The raw target that a cell points to, if its index lies in the frame's table.
pub fn cell_hyperlink_uri<'a>(frame: &'a FrameData, cell: &CellData) -> (res: Option<&'a str>)
    ensures
        str_option(res) == raw_link(frame@, cell@),
{
    match cell.hyperlink {
        Some(i) => {
            let index: usize = i as usize;
            if index < frame.hyperlinks.len() {
                Some(frame.hyperlinks[index].as_str())
            } else {
                None
            }
        },
        None => None,
    }
}

/// The target without control characters, or `None` if that leaves nothing.
pub fn sanitized_hyperlink_uri(uri: &str) -> (res: Option<String>)
    ensures
        text_option(res) == sanitized(uri@),
{
    let ghost keep = |ch: char| !is_control_char(ch);
    let mut kept = String::new();
    let mut empty = true;
    for ch in it: uri.chars()
        invariant
            keep == |ch: char| !is_control_char(ch),
            it.seq() == uri@,
            kept@ == uri@.take(it.index() as int).filter(keep),
            empty == (kept@.len() == 0),
    {
        proof {
            reveal_with_fuel(Seq::filter, 1);
            let i = it.index() as int;
            assert(uri@.take(i + 1).drop_last() =~= uri@.take(i));
            assert(uri@.take(i + 1).last() == ch);
        }
        if !is_control(ch) {
            kept.push(ch);
            empty = false;
        }
    }
    assert(uri@.take(uri@.len() as int) =~= uri@);
    if empty {
        None
    } else {
        Some(kept)
    }
}

/// The sanitized target of each entry of the frame's table.
pub fn sanitized_frame_hyperlinks(frame: &FrameData) -> (res: Vec<Option<String>>)
    ensures
        text_options(res@) == sanitized_table(frame@.hyperlinks),
{
    let mut table: Vec<Option<String>> = Vec::new();
    for i in 0..frame.hyperlinks.len()
        invariant
            table@.len() == i,
            forall|j: int|
                0 <= j < i ==> text_option(#[trigger] table@[j]) == sanitized(
                    frame.hyperlinks@[j]@,
                ),
    {
        table.push(sanitized_hyperlink_uri(frame.hyperlinks[i].as_str()));
    }
    assert(text_options(table@) =~= sanitized_table(frame@.hyperlinks));
    table
}

/// The entry of a sanitized table that a cell points to.
pub fn sanitized_cell_hyperlink_uri<'a>(
    sanitized_hyperlinks: &'a [Option<String>],
    cell: &CellData,
) -> (res: Option<&'a str>)
    ensures
        str_option(res) == table_link(text_options(sanitized_hyperlinks@), cell@),
{
    match cell.hyperlink {
        Some(i) => {
            let index: usize = i as usize;
            if index < sanitized_hyperlinks.len() {
                match &sanitized_hyperlinks[index] {
                    Some(uri) => Some(uri.as_str()),
                    None => None,
                }
            } else {
                None
            }
        },
        None => None,
    }
}

/// Whether two optional strings are both absent or both the same.
pub(crate) fn same_text(a: Option<&str>, b: Option<&str>) -> (res: bool)
    ensures
        res == (str_option(a) == str_option(b)),
{
    match (a, b) {
        (Some(x), Some(y)) => same_str(x, y),
        (None, None) => true,
        _ => false,
    }
}

/// Whether two string slices hold the same characters.
pub(crate) fn same_str(a: &str, b: &str) -> (res: bool)
    ensures
        res == (a@ == b@),
{
    let res = protocol::same_bytes(a.as_bytes(), b.as_bytes());
    proof {
        vstd::utf8::encode_utf8_decode_utf8(a@);
        vstd::utf8::encode_utf8_decode_utf8(b@);
    }
    res
}

/// Looking a cell up in the sanitized table is sanitizing what the cell points to.
pub proof fn law_table_link_is_cell_link(
    frame: protocol::FrameView,
    cell: protocol::CellView,
)
    ensures
        table_link(sanitized_table(frame.hyperlinks), cell) == cell_link(frame, cell),
{
}

/// A written target holds no control character, so nothing in it can end the escape
/// sequence it stands in, and sanitizing it again changes nothing.
pub proof fn law_sanitized_has_no_control(uri: Seq<char>)
    ensures
        forall|i: int|
            0 <= i < without_control(uri).len() ==> !is_control_char(
                #[trigger] without_control(uri)[i],
            ),
        without_control(without_control(uri)) == without_control(uri),
        sanitized(uri) is Some ==> sanitized(sanitized(uri).unwrap()) == sanitized(uri),
    decreases uri.len(),
{
    let keep = |ch: char| !is_control_char(ch);
    broadcast use vstd::seq_lib::group_filter_ensures;

    let kept = without_control(uri);
    assert forall|i: int| 0 <= i < kept.len() implies keep(#[trigger] kept[i]) by {}
    lemma_filter_keeps_all(kept, keep);
}

proof fn lemma_filter_keeps_all(s: Seq<char>, keep: spec_fn(char) -> bool)
    requires
        forall|i: int| 0 <= i < s.len() ==> keep(#[trigger] s[i]),
    ensures
        s.filter(keep) == s,
    decreases s.len(),
{
    reveal_with_fuel(Seq::filter, 1);
    if s.len() > 0 {
        lemma_filter_keeps_all(s.drop_last(), keep);
        assert(keep(s[s.len() - 1]));
        assert(s.drop_last().push(s.last()) =~= s);
    } else {
        assert(s.filter(keep) =~= s);
    }
}

/// A character that may stand in a target: its code is at least that of a space, and it
/// is neither DEL nor one of the 32 codes after that.
pub open spec fn printable(ch: char) -> bool {
    ch as int >= 0x20 && !(0x7f <= ch as int <= 0x9f)
}

/// What is kept of a text: its printable characters, one after the other.
pub open spec fn kept(text: Seq<char>) -> Seq<char>
    decreases text.len(),
{
    if text.len() == 0 {
        Seq::empty()
    } else if printable(text[0]) {
        seq![text[0]] + kept(text.skip(1))
    } else {
        kept(text.skip(1))
    }
}

proof fn lemma_without_control_is_kept(uri: Seq<char>)
    ensures
        without_control(uri) == kept(uri),
    decreases uri.len(),
{
    let keep = |ch: char| !is_control_char(ch);
    reveal_with_fuel(Seq::filter, 2);
    if uri.len() > 0 {
        let first = seq![uri[0]];
        let rest = uri.skip(1);
        lemma_without_control_is_kept(rest);
        assert(uri =~= first + rest);
        Seq::filter_distributes_over_add(first, rest, keep);
        assert(first.drop_last() =~= Seq::empty());
        assert(keep(uri[0]) == printable(uri[0]));
        assert(first.filter(keep) =~= if keep(uri[0]) {
            first
        } else {
            Seq::empty()
        });
        assert(without_control(uri) =~= kept(uri));
    } else {
        assert(without_control(uri) =~= Seq::empty());
    }
}

/// The target that is written for a text is what is kept of it, and there is none if
/// that is nothing.
pub proof fn law_sanitized_keeps_printable(uri: Seq<char>)
    ensures
        sanitized(uri) == if kept(uri).len() == 0 {
            None
        } else {
            Some(kept(uri))
        },
{
    lemma_without_control_is_kept(uri);
}

/// A target of printable characters only is written as it is.
pub proof fn law_printable_target_is_unchanged(uri: Seq<char>)
    requires
        forall|i: int|
            0 <= i < uri.len() ==> (#[trigger] uri[i]) as int >= 0x20 && !(0x7f <= uri[i] as int
                <= 0x9f),
        uri.len() > 0,
    ensures
        sanitized(uri) == Some(uri),
{
    law_sanitized_keeps_printable(uri);
    lemma_kept_all(uri);
}

proof fn lemma_kept_all(text: Seq<char>)
    requires
        forall|i: int| 0 <= i < text.len() ==> printable(#[trigger] text[i]),
    ensures
        kept(text) == text,
    decreases text.len(),
{
    if text.len() > 0 {
        let rest = text.skip(1);
        assert forall|i: int| 0 <= i < rest.len() implies printable(#[trigger] rest[i]) by {
            assert(rest[i] == text[i + 1]);
        }
        lemma_kept_all(rest);
        assert(seq![text[0]] + rest =~= text);
    } else {
        assert(kept(text) =~= text);
    }
}

/// What is written of two texts in a row is what is written of the first followed by
/// what is written of the second: every character is kept or left out by itself.
pub proof fn law_characters_are_kept_one_by_one(a: Seq<char>, b: Seq<char>)
    ensures
        without_control(a + b) == without_control(a) + without_control(b),
        forall|ch: char|
            #[trigger] without_control(seq![ch]) == if ch as int >= 0x20 && !(0x7f <= ch as int
                <= 0x9f) {
                seq![ch]
            } else {
                Seq::empty()
            },
{
    let keep = |ch: char| !is_control_char(ch);
    Seq::filter_distributes_over_add(a, b, keep);
    assert forall|ch: char|
        #[trigger] without_control(seq![ch]) == if ch as int >= 0x20 && !(0x7f <= ch as int
            <= 0x9f) {
            seq![ch]
        } else {
            Seq::empty()
        } by {
        lemma_without_control_is_kept(seq![ch]);
        assert(seq![ch].skip(1) =~= Seq::empty());
        reveal_with_fuel(kept, 2);
        assert(kept(seq![ch]) =~= if printable(ch) {
            seq![ch]
        } else {
            Seq::empty()
        });
    }
}

/// A cell points to the entry of the table that its index names, and to nothing if it
/// has no index or the table has no such entry.
pub proof fn law_cell_points_to_its_entry(frame: protocol::FrameView, cell: protocol::CellView)
    ensures
        cell.hyperlink is None ==> cell_link(frame, cell) is None,
        cell.hyperlink matches Some(i) ==> {
            &&& i >= frame.hyperlinks.len() ==> cell_link(frame, cell) is None
            &&& i < frame.hyperlinks.len() ==> {
                let uri = kept(frame.hyperlinks[i as int]);
                cell_link(frame, cell) == if uri.len() == 0 {
                    None
                } else {
                    Some(uri)
                }
            }
        },
{
    if let Some(i) = cell.hyperlink {
        if i < frame.hyperlinks.len() {
            law_sanitized_keeps_printable(frame.hyperlinks[i as int]);
        }
    }
}

/// The target of a cell: what is kept of the entry that its index names. It is empty if
/// there is none.
pub open spec fn target(frame: protocol::FrameView, cell: protocol::CellView) -> Seq<char> {
    match cell.hyperlink {
        Some(i) => if i < frame.hyperlinks.len() {
            kept(frame.hyperlinks[i as int])
        } else {
            Seq::empty()
        },
        None => Seq::empty(),
    }
}

/// The hyperlink of a cell is its target, if that is not empty.
pub proof fn law_cell_link_is_target(frame: protocol::FrameView, cell: protocol::CellView)
    ensures
        cell_link(frame, cell) == if target(frame, cell).len() == 0 {
            None
        } else {
            Some(target(frame, cell))
        },
{
    law_cell_points_to_its_entry(frame, cell);
}

} // verus!
