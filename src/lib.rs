use vstd::prelude::*;

pub mod checklist;
pub mod table;
pub mod text;

pub use checklist::{check_regex, toggle_checklist};
pub use table::{
    calculate_col_widths, extract_all_tables, extract_all_tables_with_spans,
    format_all_tables_in_markdown, format_table, format_table_at_position, get_formatted_tables,
    is_cursor_in_table, offset_to_position, parse_table_row, Position, Span, TableInfo,
};

use crate::table::{join_with_newlines, line_views};
use crate::text::{
    chars_of, line_bounds, lines_of, push_range, string_of, trim, trim_bounds, trim_front,
};

verus! {

/// The text of a link to nothing, labelled with the trimmed selection.
pub open spec fn link_text(s: Seq<char>) -> Seq<char> {
    seq!['['] + trim(s) + seq![']', '(', ')']
}

/// A Markdown link with the trimmed selection as its label and an empty
/// target: `[label]()`.
pub fn create_link(selection: &str) -> (r: String)
    ensures
        r@ == link_text(selection@),
{
    let s = chars_of(selection);
    let (a, b) = trim_bounds(&s, 0, s.len());
    assert(s@.subrange(0, s@.len() as int) =~= s@);
    let mut out: Vec<char> = Vec::new();
    out.push('[');
    push_range(&mut out, &s, a, b);
    out.push(']');
    out.push('(');
    out.push(')');
    assert(out@ =~= link_text(selection@));
    string_of(&out)
}

/// The count of leading whitespace characters of `l`.
pub open spec fn indent_of(l: Seq<char>) -> nat {
    (l.len() - trim_front(l).len()) as nat
}

/// A line as a bullet item: two spaces for each full two characters of
/// indentation, `"- "`, and the trimmed text.
pub open spec fn item_line(l: Seq<char>) -> Seq<char> {
    Seq::new(2 * (indent_of(l) / 2), |j: int| ' ') + seq!['-', ' '] + trim(l)
}

/// The bullet items of the non-blank lines of `ls`, in order.
pub open spec fn items(ls: Seq<Seq<char>>) -> Seq<Seq<char>>
    decreases ls.len(),
{
    if ls.len() == 0 {
        Seq::empty()
    } else if trim(ls.last()).len() > 0 {
        items(ls.drop_last()).push(item_line(ls.last()))
    } else {
        items(ls.drop_last())
    }
}

/// Each non-blank line of `text` as a bullet item, nested one level per two
/// characters of indentation, the items joined with `'\n'`.
pub fn itemize_text(text: &str) -> (r: String)
    ensures
        r@ == crate::text::join_lines(items(lines_of(text@))),
{
    let s = chars_of(text);
    let bounds = line_bounds(&s);
    let ghost ls = lines_of(s@);
    let mut out: Vec<Vec<char>> = Vec::new();
    let mut k: usize = 0;
    assert(ls.subrange(0, 0) =~= Seq::<Seq<char>>::empty());
    while k < bounds.len()
        invariant
            crate::text::lines_at(s@, bounds@),
            ls == lines_of(s@),
            k <= bounds@.len(),
            line_views(out@) == items(ls.subrange(0, k as int)),
        decreases bounds@.len() - k,
    {
        let (l0, l1) = bounds[k];
        let (a, b) = trim_bounds(&s, l0, l1);
        let ghost l = ls[k as int];
        assert(s@.subrange(l0 as int, l1 as int) == l);
        assert(ls.subrange(0, k + 1).drop_last() =~= ls.subrange(0, k as int));
        assert(ls.subrange(0, k + 1).last() == l);
        if a < b {
            let mut item: Vec<char> = Vec::new();
            let levels: usize = (a - l0) / 2;
            crate::text::push_repeat(&mut item, ' ', 2 * levels);
            item.push('-');
            item.push(' ');
            push_range(&mut item, &s, a, b);
            assert(item@ =~= item_line(l));
            let ghost before = out@;
            out.push(item);
            assert(line_views(out@) =~= line_views(before).push(item@));
        }
        k = k + 1;
    }
    assert(ls.subrange(0, k as int) =~= ls);
    let joined = join_with_newlines(&out);
    string_of(&joined)
}

} // verus!
