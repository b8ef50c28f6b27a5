//! The compact canonical style of manifest YAML: the three-line block form
//! of a `position` becomes `position: [x, y]`, and each locale's block
//! sequence of localized names becomes a flow sequence on one line.

use vstd::prelude::*;
use crate::text::{
    byte_len, chars_of, contains_any, dash_item, is_ws, leading_ws, leading_ws_bytes,
    leading_ws_count, lemma_byte_len_bound, lemma_lines_rejoin, lemma_no_line_breaks_concat,
    lemma_no_line_breaks_subrange, lemma_no_line_breaks_trim, lemma_text_lines_no_breaks,
    lemma_text_lines_terminated, lemma_trim_padded, lemma_trim_start_shape, no_cr,
    no_line_breaks, push_all, push_range, range_eq, skip_bytes, skip_bytes_index, split_lines,
    string_from_chars, strip_prefix, terminated, text_lines, trailing_ws_start, trim, trim_end,
    trim_range, trim_start, views,
};

verus! {

// ---------------------------------------------------------------------------
// Outside calls: serde_yaml and serde_json
// ---------------------------------------------------------------------------

/// What `serde_yaml::from_str::<Vec<String>>` reads from a YAML text: the
/// list of strings, or `None` where it reports an error.
pub uninterp spec fn yaml_string_sequence(text: Seq<char>) -> Option<Seq<Seq<char>>>;

/// Reads a YAML sequence of strings with `serde_yaml::from_str::<Vec<String>>`.
///
/// Trusted: the result is the one that `yaml_string_sequence` names for the
/// text, `None` standing for an error; nothing more of YAML is stated.
#[verifier::external_body]
fn parse_yaml_string_sequence(text: &str) -> (r: Option<Vec<String>>)
    ensures
        r is Some <==> yaml_string_sequence(text@) is Some,
        r matches Some(v) ==> v.deep_view() == yaml_string_sequence(text@)->0,
{
    serde_yaml::from_str::<Vec<String>>(text).ok()
}

/// `serde_json::Error`, carried through opaquely.
#[verifier::external_type_specification]
#[verifier::external_body]
pub struct ExJsonError(serde_json::Error);

/// The lower-case hexadecimal digit of `d` (`0 <= d < 16`).
pub open spec fn hex_digit(d: int) -> char {
    if d == 0 {
        '0'
    } else if d == 1 {
        '1'
    } else if d == 2 {
        '2'
    } else if d == 3 {
        '3'
    } else if d == 4 {
        '4'
    } else if d == 5 {
        '5'
    } else if d == 6 {
        '6'
    } else if d == 7 {
        '7'
    } else if d == 8 {
        '8'
    } else if d == 9 {
        '9'
    } else if d == 10 {
        'a'
    } else if d == 11 {
        'b'
    } else if d == 12 {
        'c'
    } else if d == 13 {
        'd'
    } else if d == 14 {
        'e'
    } else {
        'f'
    }
}

/// How a JSON string literal written by serde_json spells one character.
pub open spec fn json_escape(c: char) -> Seq<char> {
    if c == '"' {
        seq!['\\', '"']
    } else if c == '\\' {
        seq!['\\', '\\']
    } else if c == '\u{8}' {
        seq!['\\', 'b']
    } else if c == '\u{c}' {
        seq!['\\', 'f']
    } else if c == '\n' {
        seq!['\\', 'n']
    } else if c == '\r' {
        seq!['\\', 'r']
    } else if c == '\t' {
        seq!['\\', 't']
    } else if (c as int) < 0x20 {
        seq!['\\', 'u', '0', '0', hex_digit((c as int) / 16), hex_digit((c as int) % 16)]
    } else {
        seq![c]
    }
}

/// The escaped characters of `s`.
pub open spec fn json_escape_all(s: Seq<char>) -> Seq<char>
    decreases s.len(),
{
    if s.len() == 0 {
        Seq::empty()
    } else {
        json_escape_all(s.drop_last()) + json_escape(s.last())
    }
}

/// The JSON string literal of `s` as serde_json writes it.
pub open spec fn json_quote(s: Seq<char>) -> Seq<char> {
    seq!['"'] + json_escape_all(s) + seq!['"']
}

/// Writes a string as a JSON string literal with `serde_json::to_string`.
///
/// Trusted: serde_json writes a `str` as `"`, each character escaped as
/// `json_escape` says (`"` and `\` with a backslash; backspace, form feed,
/// line feed, carriage return and tab by their short escapes; the other
/// characters below U+0020 as `\u00xx` in lower-case hexadecimal), and `"`;
/// writing into its buffer cannot fail, so the result is always `Ok`.
#[verifier::external_body]
fn json_string(s: &str) -> (r: Result<String, serde_json::Error>)
    ensures
        r is Ok,
        r matches Ok(j) ==> j@ == json_quote(s@),
{
    serde_json::to_string(s)
}

// ---------------------------------------------------------------------------
// Line predicates
// ---------------------------------------------------------------------------

pub open spec fn dash_space() -> Seq<char> {
    seq!['-', ' ']
}

pub open spec fn position_key() -> Seq<char> {
    seq!['p', 'o', 's', 'i', 't', 'i', 'o', 'n', ':']
}

pub open spec fn names_key() -> Seq<char> {
    seq!['n', 'a', 'm', 'e', 's', ':']
}

/// The characters that keep a plain scalar from standing in a flow sequence.
pub open spec fn flow_indicators() -> Seq<char> {
    seq![',', '[', ']', '{', '}', ':']
}

/// The byte length of the leading whitespace of a line.
pub open spec fn indent_of(line: Seq<char>) -> nat {
    byte_len(leading_ws(line))
}

/// A line whose text, after its indentation, is `-` alone or starts with `- `.
pub open spec fn is_seq_item(line: Seq<char>) -> bool {
    trim_start(line) == seq!['-'] || strip_prefix(trim_start(line), dash_space()) is Some
}

/// `sep`-separated concatenation of `list`.
pub open spec fn join(list: Seq<Seq<char>>, sep: Seq<char>) -> Seq<char>
    decreases list.len(),
{
    if list.len() == 0 {
        Seq::empty()
    } else if list.len() == 1 {
        list[0]
    } else {
        join(list.drop_last(), sep) + sep + list.last()
    }
}

/// `a` in front of the text in `o`, if there is one.
pub open spec fn prepend(a: Seq<char>, o: Option<Seq<char>>) -> Option<Seq<char>> {
    match o {
        Some(t) => Some(a + t),
        None => None,
    }
}

// ---------------------------------------------------------------------------
// Positions
// ---------------------------------------------------------------------------

/// The two coordinates of a block-style position that starts at line `i`:
/// a line reading `position:` followed by two `- ` items.
pub open spec fn position_pair(ls: Seq<Seq<char>>, i: int) -> Option<(Seq<char>, Seq<char>)> {
    if 0 <= i && i + 2 < ls.len() && trim(ls[i]) == position_key() && strip_prefix(
        trim(ls[i + 1]),
        dash_space(),
    ) is Some && strip_prefix(trim(ls[i + 2]), dash_space()) is Some {
        Some(
            (
                strip_prefix(trim(ls[i + 1]), dash_space())->0,
                strip_prefix(trim(ls[i + 2]), dash_space())->0,
            ),
        )
    } else {
        None
    }
}

/// The flow-style position line for the position that starts at line `line`.
pub open spec fn position_line(line: Seq<char>, x: Seq<char>, y: Seq<char>) -> Seq<char> {
    position_text(line, x, y) + seq!['\n']
}

/// The text of the flow-style position line, without its line feed.
pub open spec fn position_text(line: Seq<char>, x: Seq<char>, y: Seq<char>) -> Seq<char> {
    leading_ws(line) + seq!['p', 'o', 's', 'i', 't', 'i', 'o', 'n', ':', ' ', '['] + x + seq![
        ',',
        ' ',
    ] + y + seq![']']
}

/// The output for lines `i..` when positions are inlined.
pub open spec fn positions_from(ls: Seq<Seq<char>>, i: int) -> Seq<char>
    decreases ls.len() - i,
{
    if i < 0 || i >= ls.len() {
        Seq::empty()
    } else if let Some((x, y)) = position_pair(ls, i) {
        position_line(ls[i], x, y) + positions_from(ls, i + 3)
    } else {
        ls[i] + seq!['\n'] + positions_from(ls, i + 1)
    }
}

/// The text with every block-style position written in flow style, each line
/// ending in a line feed.
pub open spec fn spec_inline_yaml_positions(yaml: Seq<char>) -> Seq<char> {
    positions_from(text_lines(yaml), 0)
}


// ---------------------------------------------------------------------------
// Localized names
// ---------------------------------------------------------------------------

/// A line that still belongs to the items of a locale indented by `li` bytes:
/// a blank line, a deeper line, or a sequence item at the same indentation.
pub open spec fn item_continues(line: Seq<char>, li: int) -> bool {
    ||| trim(line).len() == 0
    ||| indent_of(line) > li
    ||| indent_of(line) == li && is_seq_item(line)
}

/// The index of the first line at or after `j` that no longer continues the
/// items of a locale indented by `li` bytes (or the number of lines).
pub open spec fn items_end(ls: Seq<Seq<char>>, j: int, li: int) -> int
    decreases ls.len() - j,
{
    if 0 <= j < ls.len() && item_continues(ls[j], li) {
        items_end(ls, j + 1, li)
    } else {
        j
    }
}

/// `items_end` lies between its start and the number of lines.
pub proof fn lemma_items_end_bounds(ls: Seq<Seq<char>>, j: int, li: int)
    requires
        0 <= j <= ls.len(),
    ensures
        j <= items_end(ls, j, li) <= ls.len(),
        forall|k: int| j <= k < items_end(ls, j, li) ==> item_continues(#[trigger] ls[k], li),
        items_end(ls, j, li) < ls.len() ==> !item_continues(ls[items_end(ls, j, li)], li),
    decreases ls.len() - j,
{
    if j < ls.len() && item_continues(ls[j], li) {
        lemma_items_end_bounds(ls, j + 1, li);
    }
}

/// A non-blank line indented no deeper than the `names:` key ends its block.
pub open spec fn ends_names_block(line: Seq<char>, ni: int) -> bool {
    trim(line).len() != 0 && indent_of(line) <= ni
}

/// A line whose text ends in `:`.
pub open spec fn ends_with_colon(line: Seq<char>) -> bool {
    trim_end(line).len() > 0 && trim_end(line).last() == ':'
}

/// Line `i` is a locale key two bytes deeper than the `names:` key, and line
/// `i + 1` opens its block sequence at the same indentation.
pub open spec fn is_locale_header(ls: Seq<Seq<char>>, i: int, ni: int) -> bool {
    &&& indent_of(ls[i]) == ni + 2
    &&& ends_with_colon(ls[i])
    &&& indent_of(ls[i + 1]) == indent_of(ls[i])
    &&& is_seq_item(ls[i + 1])
}

/// An item line with its first `li` bytes cut off, where that is a character
/// boundary (the whole line where it is not).
pub open spec fn item_text(item: Seq<char>, li: int) -> Seq<char> {
    match skip_bytes(item, li) {
        Some(r) => r,
        None => item,
    }
}

/// The YAML text of a locale's items, with their common indentation removed.
pub open spec fn sequence_text(items: Seq<Seq<char>>, li: int) -> Seq<char> {
    join(Seq::new(items.len(), |k: int| item_text(items[k], li)), seq!['\n'])
}

/// The scalar text of an item line written as `- scalar` at indentation `li`.
pub open spec fn scalar_of(item: Seq<char>, li: int) -> Option<Seq<char>> {
    match skip_bytes(item, li) {
        Some(r) => strip_prefix(r, dash_space()),
        None => None,
    }
}

/// Whether `s` holds a flow indicator or a colon.
pub open spec fn has_flow_indicator(s: Seq<char>) -> bool {
    exists|j: int| 0 <= j < s.len() && flow_indicators().contains(#[trigger] s[j])
}

/// The flow-sequence entries for the item lines of one locale and the names
/// that YAML reads from them: where there is one plain `- scalar` line per
/// name, each scalar as written, unless it holds a flow indicator, in which
/// case the name as a JSON string; otherwise every name as a JSON string.
pub open spec fn spec_inline_name_scalars(
    items: Seq<Seq<char>>,
    li: int,
    names: Seq<Seq<char>>,
) -> Seq<Seq<char>> {
    if items.len() == names.len() && (forall|k: int|
        0 <= k < items.len() ==> (#[trigger] scalar_of(items[k], li)) is Some) {
        Seq::new(
            items.len(),
            |k: int|
                if has_flow_indicator(scalar_of(items[k], li)->0) {
                    json_quote(names[k])
                } else {
                    scalar_of(items[k], li)->0
                },
        )
    } else {
        Seq::new(names.len(), |k: int| json_quote(names[k]))
    }
}

/// The flow-style line of one locale.
pub open spec fn locale_line(locale: Seq<char>, entries: Seq<Seq<char>>) -> Seq<char> {
    locale + seq![' ', '['] + join(entries, seq![',', ' ']) + seq![']', '\n']
}

/// The output for lines `i..` outside any `names:` block, or `None` where
/// YAML rejects the items of a locale.
pub open spec fn names_from(ls: Seq<Seq<char>>, i: int) -> Option<Seq<char>>
    decreases ls.len() - i, 0int,
{
    if i < 0 || i >= ls.len() {
        Some(Seq::empty())
    } else if trim(ls[i]) == names_key() {
        prepend(ls[i] + seq!['\n'], locales_from(ls, i + 1, indent_of(ls[i]) as int))
    } else {
        prepend(ls[i] + seq!['\n'], names_from(ls, i + 1))
    }
}

/// The output for lines `i..` inside a `names:` block whose key is indented
/// by `ni` bytes.
pub open spec fn locales_from(ls: Seq<Seq<char>>, i: int, ni: int) -> Option<Seq<char>>
    decreases ls.len() - i, 1int,
{
    if i < 0 || i >= ls.len() {
        Some(Seq::empty())
    } else if ends_names_block(ls[i], ni) || i + 1 >= ls.len() {
        names_from(ls, i)
    } else if !is_locale_header(ls, i, ni) {
        prepend(ls[i] + seq!['\n'], locales_from(ls, i + 1, ni))
    } else {
        let li = indent_of(ls[i]) as int;
        let e = items_end(ls, i + 1, li);
        proof {
            lemma_items_end_bounds(ls, i + 1, li);
        }
        let items = ls.subrange(i + 1, e);
        match yaml_string_sequence(sequence_text(items, li)) {
            Some(names) => prepend(
                locale_line(ls[i], spec_inline_name_scalars(items, li, names)),
                locales_from(ls, e, ni),
            ),
            None => None,
        }
    }
}

/// The text with the block sequence of every locale under `names:` written as
/// a flow sequence on the locale's line, or `None` where YAML rejects the
/// items of a locale.
pub open spec fn spec_inline_yaml_names(yaml: Seq<char>) -> Option<Seq<char>> {
    names_from(text_lines(yaml), 0)
}

// ---------------------------------------------------------------------------
// Laws
// ---------------------------------------------------------------------------

/// Lines `i..` of `ls`, each followed by a line feed.
pub open spec fn terminated_lines(ls: Seq<Seq<char>>, i: int) -> Seq<char>
    decreases ls.len() - i,
{
    if i < 0 || i >= ls.len() {
        Seq::empty()
    } else {
        ls[i] + seq!['\n'] + terminated_lines(ls, i + 1)
    }
}

/// Text that is empty or ends in a line feed.
pub open spec fn ends_in_line_feed(t: Seq<char>) -> bool {
    t.len() == 0 || t.last() == '\n'
}

proof fn lemma_ends_in_line_feed_concat(a: Seq<char>, b: Seq<char>)
    requires
        a.len() > 0 && a.last() == '\n',
        ends_in_line_feed(b),
    ensures
        ends_in_line_feed(a + b),
{
    if b.len() > 0 {
        assert((a + b).last() == b.last());
    } else {
        assert(a + b =~= a);
    }
}

/// Lines where no block-style position starts come back unchanged, each
/// with a line feed.
pub proof fn lemma_positions_untouched(ls: Seq<Seq<char>>, i: int)
    requires
        0 <= i <= ls.len(),
        forall|k: int| i <= k < ls.len() ==> (#[trigger] position_pair(ls, k)) is None,
    ensures
        positions_from(ls, i) == terminated_lines(ls, i),
    decreases ls.len() - i,
{
    if i < ls.len() {
        lemma_positions_untouched(ls, i + 1);
    }
}

/// `terminated_lines` from line `i` on is `terminated` of the rest.
pub proof fn lemma_terminated_lines_skip(ls: Seq<Seq<char>>, i: int)
    requires
        0 <= i <= ls.len(),
    ensures
        terminated_lines(ls, i) == terminated(ls.skip(i)),
    decreases ls.len() - i,
{
    if i < ls.len() {
        lemma_terminated_lines_skip(ls, i + 1);
        assert(ls.skip(i).drop_first() =~= ls.skip(i + 1));
        assert(ls.skip(i)[0] == ls[i]);
    } else {
        assert(ls.skip(i) =~= Seq::<Seq<char>>::empty());
    }
}

/// Text that ends in a line feed, holds no carriage return and has no
/// block-style position comes back unchanged from the position step.
pub proof fn lemma_positions_keep_text(yaml: Seq<char>)
    requires
        no_cr(yaml),
        yaml.len() == 0 || yaml.last() == '\n',
        forall|k: int|
            0 <= k < text_lines(yaml).len() ==> (#[trigger] position_pair(text_lines(yaml), k))
                is None,
    ensures
        spec_inline_yaml_positions(yaml) == yaml,
{
    let ls = text_lines(yaml);
    lemma_positions_untouched(ls, 0);
    lemma_terminated_lines_skip(ls, 0);
    assert(ls.skip(0) =~= ls);
    lemma_lines_rejoin(yaml);
}

/// Text that ends in a line feed, holds no carriage return and has no
/// `names:` key comes back unchanged from the names step.
pub proof fn lemma_names_keep_text(yaml: Seq<char>)
    requires
        no_cr(yaml),
        yaml.len() == 0 || yaml.last() == '\n',
        forall|k: int|
            0 <= k < text_lines(yaml).len() ==> trim(#[trigger] text_lines(yaml)[k])
                != names_key(),
    ensures
        spec_inline_yaml_names(yaml) == Some(yaml),
{
    let ls = text_lines(yaml);
    lemma_names_untouched(ls, 0);
    lemma_terminated_lines_skip(ls, 0);
    assert(ls.skip(0) =~= ls);
    lemma_lines_rejoin(yaml);
}

/// The lines that the position step writes for lines `i..` (without their
/// line feeds).
pub open spec fn position_out_lines(ls: Seq<Seq<char>>, i: int) -> Seq<Seq<char>>
    decreases ls.len() - i,
{
    if i < 0 || i >= ls.len() {
        Seq::empty()
    } else if let Some((x, y)) = position_pair(ls, i) {
        seq![position_text(ls[i], x, y)] + position_out_lines(ls, i + 3)
    } else {
        seq![ls[i]] + position_out_lines(ls, i + 1)
    }
}

/// The position step writes its output lines, each with a line feed.
pub proof fn lemma_positions_from_lines(ls: Seq<Seq<char>>, i: int)
    requires
        0 <= i <= ls.len(),
    ensures
        positions_from(ls, i) == terminated(position_out_lines(ls, i)),
    decreases ls.len() - i,
{
    if i < ls.len() {
        let o = position_out_lines(ls, i);
        if let Some((x, y)) = position_pair(ls, i) {
            lemma_positions_from_lines(ls, i + 3);
            assert(o.drop_first() =~= position_out_lines(ls, i + 3));
        } else {
            lemma_positions_from_lines(ls, i + 1);
            assert(o.drop_first() =~= position_out_lines(ls, i + 1));
        }
    }
}

/// A flow-style position line is neither a `position:` key nor a `- ` item.
proof fn lemma_position_text_shape(line: Seq<char>, x: Seq<char>, y: Seq<char>)
    ensures
        trim(position_text(line, x, y)) != position_key(),
        strip_prefix(trim(position_text(line, x, y)), dash_space()) is None,
{
    let r = seq!['p', 'o', 's', 'i', 't', 'i', 'o', 'n', ':', ' ', '['] + x + seq![',', ' '] + y
        + seq![']'];
    lemma_trim_start_shape(line);
    let w = leading_ws(line);
    assert forall|k: int| 0 <= k < w.len() implies is_ws(#[trigger] w[k]) by {
        assert(w[k] == line[k]);
    }
    assert(r[0] == 'p');
    assert(r.last() == ']');
    lemma_trim_padded(w, r);
    assert(position_text(line, x, y) =~= w + r);
    assert(r.len() >= 14);
    if r.len() >= 2 {
        assert(r.take(2)[0] == 'p');
    }
}

/// A trimmed line that starts with `- ` is no `position:` key.
proof fn lemma_dash_not_key(line: Seq<char>)
    requires
        strip_prefix(trim(line), dash_space()) is Some,
    ensures
        trim(line) != position_key(),
{
    assert(trim(line).take(2)[0] == '-');
    assert(trim(line)[0] == '-');
}

/// The lines that the position step writes, from line `i` on: at most one
/// per input line, none that starts a block-style position, and none with a
/// line break where the input has none.
pub proof fn lemma_position_out_lines(ls: Seq<Seq<char>>, i: int)
    requires
        0 <= i <= ls.len(),
    ensures
        position_out_lines(ls, i).len() <= ls.len() - i,
        i < ls.len() ==> position_out_lines(ls, i).len() >= 1,
        i < ls.len() && strip_prefix(trim(position_out_lines(ls, i)[0]), dash_space()) is Some
            ==> position_pair(ls, i) is None && position_out_lines(ls, i)[0] == ls[i],
        forall|j: int|
            0 <= j < position_out_lines(ls, i).len() ==> (#[trigger] position_pair(
                position_out_lines(ls, i),
                j,
            )) is None,
        (forall|k: int| 0 <= k < ls.len() ==> no_line_breaks(#[trigger] ls[k])) ==> forall|j: int|
            0 <= j < position_out_lines(ls, i).len() ==> no_line_breaks(
                #[trigger] position_out_lines(ls, i)[j],
            ),
    decreases ls.len() - i,
{
    if i < ls.len() {
        let o = position_out_lines(ls, i);
        let pair = position_pair(ls, i);
        let next = if pair is Some {
            i + 3
        } else {
            i + 1
        };
        let rest = position_out_lines(ls, next);
        lemma_position_out_lines(ls, next);
        let h = o[0];
        assert(o =~= seq![h] + rest);
        if let Some((x, y)) = pair {
            lemma_position_text_shape(ls[i], x, y);
        }
        // No position starts in the output.
        assert forall|j: int| 0 <= j < o.len() implies (#[trigger] position_pair(o, j)) is None by {
            if j > 0 {
                assert(position_pair(o, j) == position_pair(rest, j - 1));
            } else if pair is None && trim(ls[i]) == position_key() && o.len() > 2 {
                // The key at line i has no two items after it in the input, and
                // the output keeps that.
                lemma_position_out_lines(ls, i + 1);
                if i + 2 >= ls.len() {
                } else if strip_prefix(trim(ls[i + 1]), dash_space()) is None {
                    assert(o[1] == rest[0]);
                } else {
                    lemma_dash_not_key(ls[i + 1]);
                    assert(position_pair(ls, i + 1) is None);
                    lemma_position_out_lines(ls, i + 2);
                    assert(rest =~= seq![ls[i + 1]] + position_out_lines(ls, i + 2));
                    assert(o[2] == position_out_lines(ls, i + 2)[0]);
                }
            }
        }
        if forall|k: int| 0 <= k < ls.len() ==> no_line_breaks(#[trigger] ls[k]) {
            if let Some((x, y)) = pair {
                let l = ls[i];
                lemma_trim_start_shape(l);
                lemma_no_line_breaks_subrange(l, 0, l.len() - trim_start(l).len());
                assert(l.subrange(0, l.len() - trim_start(l).len()) =~= leading_ws(l));
                let t1 = trim(ls[i + 1]);
                let t2 = trim(ls[i + 2]);
                lemma_no_line_breaks_trim(ls[i + 1]);
                lemma_no_line_breaks_trim(ls[i + 2]);
                lemma_no_line_breaks_subrange(t1, 2, t1.len() as int);
                lemma_no_line_breaks_subrange(t2, 2, t2.len() as int);
                assert(t1.subrange(2, t1.len() as int) =~= x);
                assert(t2.subrange(2, t2.len() as int) =~= y);
                let a = seq!['p', 'o', 's', 'i', 't', 'i', 'o', 'n', ':', ' ', '['];
                let b = seq![',', ' '];
                let c = seq![']'];
                assert(no_line_breaks(a));
                assert(no_line_breaks(b));
                assert(no_line_breaks(c));
                lemma_no_line_breaks_concat(leading_ws(l), a);
                lemma_no_line_breaks_concat(leading_ws(l) + a, x);
                lemma_no_line_breaks_concat(leading_ws(l) + a + x, b);
                lemma_no_line_breaks_concat(leading_ws(l) + a + x + b, y);
                lemma_no_line_breaks_concat(leading_ws(l) + a + x + b + y, c);
            }
            assert forall|j: int| 0 <= j < o.len() implies no_line_breaks(#[trigger] o[j]) by {
                if j > 0 {
                    assert(o[j] == rest[j - 1]);
                }
            }
        }
    }
}

/// Where every `position:` key of the input starts a block-style position,
/// no line that the position step writes is a `position:` key.
pub proof fn lemma_position_out_no_key(ls: Seq<Seq<char>>, i: int)
    requires
        0 <= i <= ls.len(),
        forall|k: int|
            0 <= k < ls.len() && trim(#[trigger] ls[k]) == position_key() ==> position_pair(ls, k)
                is Some,
    ensures
        forall|j: int|
            0 <= j < position_out_lines(ls, i).len() ==> trim(
                #[trigger] position_out_lines(ls, i)[j],
            ) != position_key(),
    decreases ls.len() - i,
{
    if i < ls.len() {
        let o = position_out_lines(ls, i);
        if let Some((x, y)) = position_pair(ls, i) {
            lemma_position_out_no_key(ls, i + 3);
            lemma_position_text_shape(ls[i], x, y);
            let rest = position_out_lines(ls, i + 3);
            assert forall|j: int| 0 <= j < o.len() implies trim(#[trigger] o[j]) != position_key() by {
                if j > 0 {
                    assert(o[j] == rest[j - 1]);
                }
            }
        } else {
            lemma_position_out_no_key(ls, i + 1);
            let rest = position_out_lines(ls, i + 1);
            assert forall|j: int| 0 <= j < o.len() implies trim(#[trigger] o[j]) != position_key() by {
                if j > 0 {
                    assert(o[j] == rest[j - 1]);
                }
            }
        }
    }
}

/// Inlining positions a second time changes nothing, for text without
/// carriage returns.
pub proof fn lemma_positions_idempotent(yaml: Seq<char>)
    requires
        no_cr(yaml),
    ensures
        spec_inline_yaml_positions(spec_inline_yaml_positions(yaml)) == spec_inline_yaml_positions(
            yaml,
        ),
{
    let ls = text_lines(yaml);
    lemma_text_lines_no_breaks(yaml);
    lemma_position_out_lines(ls, 0);
    lemma_positions_from_lines(ls, 0);
    let o = position_out_lines(ls, 0);
    let out = spec_inline_yaml_positions(yaml);
    assert(out == terminated(o));
    lemma_text_lines_terminated(o);
    assert(text_lines(out) == o);
    lemma_positions_untouched(o, 0);
    lemma_terminated_lines_skip(o, 0);
    assert(o.skip(0) =~= o);
}

/// Every line that the position step writes ends in a line feed.
pub proof fn lemma_positions_terminated(ls: Seq<Seq<char>>, i: int)
    requires
        0 <= i <= ls.len(),
    ensures
        ends_in_line_feed(positions_from(ls, i)),
    decreases ls.len() - i,
{
    if i < ls.len() {
        if let Some((x, y)) = position_pair(ls, i) {
            lemma_positions_terminated(ls, i + 3);
            let l = position_line(ls[i], x, y);
            assert(l.last() == '\n');
            lemma_ends_in_line_feed_concat(l, positions_from(ls, i + 3));
        } else {
            lemma_positions_terminated(ls, i + 1);
            lemma_ends_in_line_feed_concat(ls[i] + seq!['\n'], positions_from(ls, i + 1));
        }
    }
}

/// Lines without a `names:` key come back unchanged, each with a line feed.
pub proof fn lemma_names_untouched(ls: Seq<Seq<char>>, i: int)
    requires
        0 <= i <= ls.len(),
        forall|k: int| i <= k < ls.len() ==> trim(#[trigger] ls[k]) != names_key(),
    ensures
        names_from(ls, i) == Some(terminated_lines(ls, i)),
    decreases ls.len() - i,
{
    if i < ls.len() {
        lemma_names_untouched(ls, i + 1);
    }
}

/// Every line that the names step writes ends in a line feed.
pub proof fn lemma_names_terminated(ls: Seq<Seq<char>>, i: int)
    requires
        0 <= i <= ls.len(),
    ensures
        names_from(ls, i) matches Some(t) ==> ends_in_line_feed(t),
    decreases ls.len() - i, 0int,
{
    if i < ls.len() {
        if trim(ls[i]) == names_key() {
            lemma_locales_terminated(ls, i + 1, indent_of(ls[i]) as int);
            if let Some(t) = locales_from(ls, i + 1, indent_of(ls[i]) as int) {
                lemma_ends_in_line_feed_concat(ls[i] + seq!['\n'], t);
            }
        } else {
            lemma_names_terminated(ls, i + 1);
            if let Some(t) = names_from(ls, i + 1) {
                lemma_ends_in_line_feed_concat(ls[i] + seq!['\n'], t);
            }
        }
    }
}

proof fn lemma_locales_terminated(ls: Seq<Seq<char>>, i: int, ni: int)
    requires
        0 <= i <= ls.len(),
    ensures
        locales_from(ls, i, ni) matches Some(t) ==> ends_in_line_feed(t),
    decreases ls.len() - i, 1int,
{
    if i < ls.len() {
        if ends_names_block(ls[i], ni) || i + 1 >= ls.len() {
            lemma_names_terminated(ls, i);
        } else if !is_locale_header(ls, i, ni) {
            lemma_locales_terminated(ls, i + 1, ni);
            if let Some(t) = locales_from(ls, i + 1, ni) {
                lemma_ends_in_line_feed_concat(ls[i] + seq!['\n'], t);
            }
        } else {
            let li = indent_of(ls[i]) as int;
            let e = items_end(ls, i + 1, li);
            lemma_items_end_bounds(ls, i + 1, li);
            lemma_locales_terminated(ls, e, ni);
            let items = ls.subrange(i + 1, e);
            if let Some(names) = yaml_string_sequence(sequence_text(items, li)) {
                let l = locale_line(ls[i], spec_inline_name_scalars(items, li, names));
                assert(l.last() == '\n');
                if let Some(t) = locales_from(ls, e, ni) {
                    lemma_ends_in_line_feed_concat(l, t);
                }
            }
        }
    }
}

/// Every name that YAML reads from a locale's items gives exactly one entry
/// of its flow sequence, in order: the scalar as written or the name as a
/// JSON string.
pub proof fn lemma_one_entry_per_name(items: Seq<Seq<char>>, li: int, names: Seq<Seq<char>>)
    ensures
        spec_inline_name_scalars(items, li, names).len() == names.len(),
        forall|k: int|
            0 <= k < names.len() ==> {
                let entry = #[trigger] spec_inline_name_scalars(items, li, names)[k];
                entry == json_quote(names[k]) || (scalar_of(items[k], li) is Some && entry
                    == scalar_of(items[k], li)->0 && !has_flow_indicator(entry))
            },
{
}

/// Every line of the canonical text ends in a line feed.
pub proof fn lemma_canonical_terminated(yaml: Seq<char>)
    ensures
        ends_in_line_feed(spec_inline_yaml_positions(yaml)),
        spec_canonicalize_yaml(yaml) matches Some(t) ==> ends_in_line_feed(t),
{
    lemma_positions_terminated(text_lines(yaml), 0);
    lemma_names_terminated(text_lines(spec_inline_yaml_positions(yaml)), 0);
}

/// Whether `s` is `-` alone or starts with `- ` after its indentation.
fn is_seq_item_chars(s: &[char]) -> (r: bool)
    ensures
        r == is_seq_item(s@),
{
    let a = leading_ws_count(s);
    let dash: [char; 1] = ['-'];
    let dash_sp: [char; 2] = ['-', ' '];
    let alone = range_eq(s, a, s.len(), &dash);
    let ghost t = s@.skip(a as int);
    assert(t =~= s@.subrange(a as int, s@.len() as int));
    let prefixed = s.len() - a >= 2 && range_eq(s, a, a + 2, &dash_sp);
    proof {
        assert(dash@ == seq!['-']);
        assert(dash_sp@ == dash_space());
        assert(trim_start(s@) == t);
        if t.len() >= 2 {
            assert(t.take(2) =~= s@.subrange(a as int, a + 2));
        }
        assert(alone == (t == seq!['-']));
        assert(prefixed == (strip_prefix(t, dash_space()) is Some));
    }
    alone || prefixed
}

/// Whether the text of `s` ends in `:`.
fn ends_with_colon_chars(s: &[char]) -> (r: bool)
    ensures
        r == ends_with_colon(s@),
{
    let e = trailing_ws_start(s, 0);
    assert(s@.skip(0) =~= s@);
    e > 0 && s[e - 1] == ':'
}

/// Whether `s` is blank.
fn is_blank(s: &[char]) -> (r: bool)
    ensures
        r == (trim(s@).len() == 0),
{
    let (a, e) = trim_range(s);
    a == e
}

/// Whether `s` continues the items of a locale indented by `li` bytes.
fn item_continues_chars(s: &[char], li: u128) -> (r: bool)
    ensures
        r == item_continues(s@, li as int),
{
    if is_blank(s) {
        return true;
    }
    let ii = leading_ws_bytes(s);
    ii > li || (ii == li && is_seq_item_chars(s))
}

/// `join(list.take(k + 1))` in terms of `join(list.take(k))`.
proof fn lemma_join_step(list: Seq<Seq<char>>, sep: Seq<char>, k: int)
    requires
        0 <= k < list.len(),
    ensures
        join(list.take(k + 1), sep) == if k == 0 {
            list[0]
        } else {
            join(list.take(k), sep) + sep + list[k]
        },
{
    let t = list.take(k + 1);
    if k > 0 {
        assert(t.drop_last() =~= list.take(k));
    }
}

/// Appends `join(parts, sep)` to `out`.
fn push_joined(out: &mut Vec<char>, parts: &Vec<Vec<char>>, sep: &[char])
    ensures
        final(out)@ == old(out)@ + join(views(parts@), sep@),
{
    let ghost pv = views(parts@);
    let ghost start = out@;
    let mut k: usize = 0;
    while k < parts.len()
        invariant
            pv == views(parts@),
            k <= parts@.len(),
            out@ == start + join(pv.take(k as int), sep@),
        decreases parts@.len() - k,
    {
        proof {
            lemma_join_step(pv, sep@, k as int);
        }
        if k > 0 {
            push_all(out, sep);
        }
        push_all(out, parts[k].as_slice());
        proof {
            if k == 0 {
                assert(join(pv.take(0), sep@) =~= Seq::<char>::empty());
            }
            assert(out@ =~= start + join(pv.take(k + 1), sep@));
        }
        k = k + 1;
    }
    assert(pv.take(k as int) =~= pv);
}

/// The YAML text of the item lines `from..to` of `ls`, indented by `li` bytes.
fn sequence_text_of(ls: &Vec<Vec<char>>, from: usize, to: usize, li: u128) -> (r: Vec<char>)
    requires
        from <= to <= ls@.len(),
    ensures
        r@ == sequence_text(views(ls@).subrange(from as int, to as int), li as int),
{
    let ghost items = views(ls@).subrange(from as int, to as int);
    let mut parts: Vec<Vec<char>> = Vec::new();
    let mut k: usize = from;
    while k < to
        invariant
            from <= k <= to <= ls@.len(),
            items == views(ls@).subrange(from as int, to as int),
            views(parts@) =~= Seq::new((k - from) as nat, |m: int| item_text(items[m], li as int)),
        decreases to - k,
    {
        let line = ls[k].as_slice();
        assert(line@ == items[k - from]);
        let mut part: Vec<char> = Vec::new();
        match skip_bytes_index(line, li) {
            Some(i) => {
                push_range(&mut part, line, i, line.len());
                assert(part@ =~= line@.skip(i as int));
            },
            None => {
                push_all(&mut part, line);
                assert(part@ =~= line@);
            },
        }
        let ghost before = views(parts@);
        parts.push(part);
        proof {
            assert(views(parts@) =~= before.push(item_text(items[k - from], li as int)));
        }
        k = k + 1;
    }
    let mut text: Vec<char> = Vec::new();
    let nl: [char; 1] = ['\n'];
    push_joined(&mut text, &parts, &nl);
    assert(nl@ == seq!['\n']);
    assert(views(parts@) =~= Seq::new(items.len(), |m: int| item_text(items[m], li as int)));
    assert(text@ =~= sequence_text(items, li as int));
    text
}

/// The JSON string literal of `name`.
fn json_chars(name: &String) -> (r: Vec<char>)
    ensures
        r@ == json_quote(name@),
{
    match json_string(name.as_str()) {
        Ok(j) => chars_of(j.as_str()),
        Err(_) => Vec::new(),
    }
}

/// The flow-style line of a locale: the locale's line, ` [`, the entries
/// separated by `, `, and `]` with a line feed.
pub fn locale_flow_line(locale: &[char], entries: &Vec<Vec<char>>) -> (r: Vec<char>)
    ensures
        r@ == locale_line(locale@, views(entries@)),
{
    let open: [char; 2] = [' ', '['];
    let comma: [char; 2] = [',', ' '];
    let close: [char; 2] = [']', '\n'];
    let mut out: Vec<char> = Vec::new();
    push_all(&mut out, locale);
    push_all(&mut out, &open);
    push_joined(&mut out, &entries, &comma);
    push_all(&mut out, &close);
    assert(out@ =~= locale_line(locale@, views(entries@)));
    out
}

/// The entries of the flow sequence for the item lines `from..to` of `ls`,
/// indented by `li` bytes, from which YAML read `names`: the plain scalars
/// as written, or names as JSON strings (see `spec_inline_name_scalars`).
pub fn inline_name_scalars(
    ls: &Vec<Vec<char>>,
    from: usize,
    to: usize,
    li: u128,
    names: &Vec<String>,
) -> (r: Vec<Vec<char>>)
    requires
        from <= to <= ls@.len(),
    ensures
        views(r@) == spec_inline_name_scalars(
            views(ls@).subrange(from as int, to as int),
            li as int,
            names.deep_view(),
        ),
{
    let ghost items = views(ls@).subrange(from as int, to as int);
    let ghost nv = names.deep_view();
    let mut plain = to - from == names.len();
    let mut starts: Vec<usize> = Vec::new();
    let dash_sp: [char; 2] = ['-', ' '];
    let mut k: usize = from;
    while plain && k < to
        invariant
            from <= k <= to <= ls@.len(),
            items == views(ls@).subrange(from as int, to as int),
            dash_sp@ == dash_space(),
            plain ==> starts@.len() == k - from,
            plain ==> forall|m: int|
                0 <= m < k - from ==> starts@[m] <= items[m].len() && #[trigger] scalar_of(
                    items[m],
                    li as int,
                ) == Some(items[m].skip(starts@[m] as int)),
            !plain ==> !(items.len() == nv.len() && forall|m: int|
                0 <= m < items.len() ==> (#[trigger] scalar_of(items[m], li as int)) is Some),
            plain ==> items.len() == nv.len(),
        decreases to - k,
    {
        let line = ls[k].as_slice();
        assert(line@ == items[k - from]);
        match skip_bytes_index(line, li) {
            Some(i) => {
                let ghost rest = line@.skip(i as int);
                if line.len() - i >= 2 && range_eq(line, i, i + 2, &dash_sp) {
                    proof {
                        assert(rest.take(2) =~= line@.subrange(i as int, i + 2));
                        assert(rest.skip(2) =~= line@.skip(i + 2));
                    }
                    starts.push(i + 2);
                } else {
                    proof {
                        if rest.len() >= 2 {
                            assert(rest.take(2) =~= line@.subrange(i as int, i + 2));
                        }
                        assert(scalar_of(items[k - from], li as int) is None);
                    }
                    plain = false;
                }
            },
            None => {
                plain = false;
            },
        }
        k = k + 1;
    }
    let specials: [char; 6] = [',', '[', ']', '{', '}', ':'];
    let mut out: Vec<Vec<char>> = Vec::new();
    if plain {
        let mut m: usize = 0;
        while m < to - from
            invariant
                from <= to <= ls@.len(),
                m <= to - from,
                items == views(ls@).subrange(from as int, to as int),
                items.len() == nv.len(),
                nv == names.deep_view(),
                specials@ == flow_indicators(),
                starts@.len() == to - from,
                forall|q: int|
                    0 <= q < to - from ==> starts@[q] <= items[q].len() && #[trigger] scalar_of(
                        items[q],
                        li as int,
                    ) == Some(items[q].skip(starts@[q] as int)),
                views(out@) =~= Seq::new(
                    m as nat,
                    |q: int|
                        if has_flow_indicator(scalar_of(items[q], li as int)->0) {
                            json_quote(nv[q])
                        } else {
                            scalar_of(items[q], li as int)->0
                        },
                ),
            decreases to - from - m,
        {
            let line = ls[from + m].as_slice();
            assert(line@ == items[m as int]);
            let st = starts[m];
            let ghost sc = line@.skip(st as int);
            assert(scalar_of(items[m as int], li as int) == Some(sc));
            let special = contains_any(line, st, line.len(), &specials);
            proof {
                if special {
                    let j = choose|j: int|
                        st <= j < line@.len() && specials@.contains(#[trigger] line@[j]);
                    assert(sc[j - st] == line@[j]);
                    assert(has_flow_indicator(sc));
                } else {
                    assert forall|j: int| 0 <= j < sc.len() implies !flow_indicators().contains(
                        #[trigger] sc[j],
                    ) by {
                        assert(sc[j] == line@[j + st]);
                    }
                    assert(!has_flow_indicator(sc));
                }
            }
            let entry = if special {
                json_chars(&names[m])
            } else {
                let mut e: Vec<char> = Vec::new();
                push_range(&mut e, line, st, line.len());
                assert(e@ =~= sc);
                e
            };
            let ghost before = views(out@);
            out.push(entry);
            proof {
                assert(views(out@) =~= before.push(entry@));
            }
            m = m + 1;
        }
    } else {
        let mut m: usize = 0;
        while m < names.len()
            invariant
                m <= names@.len(),
                nv == names.deep_view(),
                views(out@) =~= Seq::new(m as nat, |q: int| json_quote(nv[q])),
            decreases names@.len() - m,
        {
            let entry = json_chars(&names[m]);
            let ghost before = views(out@);
            out.push(entry);
            proof {
                assert(views(out@) =~= before.push(entry@));
            }
            m = m + 1;
        }
    }
    out
}

/// Whether line `i` of `ls` is a locale key of the `names:` block whose key
/// is indented by `ni` bytes, with its items on the next line.
fn is_locale_header_at(ls: &Vec<Vec<char>>, i: usize, ni: u128, li: u128) -> (r: bool)
    requires
        i + 1 < ls.len(),
        li == indent_of(ls@[i as int]@),
        ni < 0x1_0000_0000_0000_0000_0000_0000_0000_0000 - 2,
    ensures
        r == is_locale_header(views(ls@), i as int, ni as int),
{
    let locale = ls[i].as_slice();
    let first = ls[i + 1].as_slice();
    li == ni + 2 && ends_with_colon_chars(locale) && leading_ws_bytes(first) == li
        && is_seq_item_chars(first)
}

/// The names output for the lines `ls`, or `None` where YAML rejects the
/// items of a locale.
fn try_names_of_lines(ls: &Vec<Vec<char>>) -> (r: Option<Vec<char>>)
    ensures
        match r {
            Some(o) => names_from(views(ls@), 0) == Some(o@),
            None => names_from(views(ls@), 0) is None,
        },
{
    let ghost lv = views(ls@);
    let ghost total = names_from(lv, 0);
    let key: [char; 6] = ['n', 'a', 'm', 'e', 's', ':'];
    let n = ls.len();
    let mut out: Vec<char> = Vec::new();
    let mut index: usize = 0;
    while index < n
        invariant
            lv == views(ls@),
            n == ls@.len(),
            index <= n,
            prepend(out@, names_from(lv, index as int)) == total,
            total == names_from(lv, 0),
            key@ == names_key(),
        decreases n - index,
    {
        let line = ls[index].as_slice();
        assert(line@ == lv[index as int]);
        let ghost before = out@;
        push_all(&mut out, line);
        out.push('\n');
        let (a, e) = trim_range(line);
        let is_names = range_eq(line, a, e, &key);
        index = index + 1;
        if !is_names {
            proof {
                assert(out@ =~= before + (line@ + seq!['\n']));
                assert(prepend(out@, names_from(lv, index as int)) =~= prepend(
                    before,
                    names_from(lv, index - 1),
                ));
            }
            continue;
        }
        let ni = leading_ws_bytes(line);
        let line_len = line.len();
        let ghost entry = index;
        proof {
            assert(out@ =~= before + (line@ + seq!['\n']));
            assert(prepend(out@, locales_from(lv, index as int, ni as int)) =~= prepend(
                before,
                names_from(lv, index - 1),
            ));
            assert(ni <= 4 * line@.len()) by {
                assert(leading_ws(line@).len() <= line@.len());
                lemma_byte_len_bound(leading_ws(line@));
            }
        }
        loop
            invariant
                lv == views(ls@),
                n == ls@.len(),
                entry <= index <= n,
                prepend(out@, locales_from(lv, index as int, ni as int)) == total,
                total == names_from(lv, 0),
                ni < 0x1_0000_0000_0000_0000_0000_0000_0000_0000 - 2,
                key@ == names_key(),
                        ensures
                entry <= index <= n,
                prepend(out@, names_from(lv, index as int)) == total,
            decreases n - index,
        {
            if index >= n {
                break;
            }
            let locale = ls[index].as_slice();
            assert(locale@ == lv[index as int]);
            let li = leading_ws_bytes(locale);
            if (!is_blank(locale) && li <= ni) || index + 1 >= n {
                break;
            }
            if !is_locale_header_at(ls, index, ni, li) {
                let ghost before = out@;
                push_all(&mut out, locale);
                out.push('\n');
                proof {
                    assert(out@ =~= before + (locale@ + seq!['\n']));
                    assert(prepend(out@, locales_from(lv, index + 1, ni as int)) =~= prepend(
                        before,
                        locales_from(lv, index as int, ni as int),
                    ));
                }
                index = index + 1;
                continue;
            }
            let items_start = index + 1;
            let mut items_end_at = items_start;
            while items_end_at < n && item_continues_chars(ls[items_end_at].as_slice(), li)
                invariant
                    lv == views(ls@),
                    n == ls@.len(),
                    items_start <= items_end_at <= n,
                    items_end(lv, items_start as int, li as int) == items_end(
                        lv,
                        items_end_at as int,
                        li as int,
                    ),
                decreases n - items_end_at,
            {
                assert(ls@[items_end_at as int]@ == lv[items_end_at as int]);
                items_end_at = items_end_at + 1;
            }
            proof {
                if items_end_at < n {
                    assert(ls@[items_end_at as int]@ == lv[items_end_at as int]);
                }
            }
            let text = sequence_text_of(ls, items_start, items_end_at, li);
            let text_str = string_from_chars(text);
            let parsed = parse_yaml_string_sequence(text_str.as_str());
            let names = match parsed {
                Some(names) => names,
                None => {
                    proof {
                        assert(locales_from(lv, index as int, ni as int) is None);
                    }
                    return None;
                },
            };
            let entries = inline_name_scalars(ls, items_start, items_end_at, li, &names);
            let flow = locale_flow_line(locale, &entries);
            let ghost before = out@;
            push_all(&mut out, flow.as_slice());
            proof {
                let items = lv.subrange(items_start as int, items_end_at as int);
                let line_out = locale_line(
                    locale@,
                    spec_inline_name_scalars(items, li as int, names.deep_view()),
                );
                assert(out@ =~= before + line_out);
                assert(prepend(out@, locales_from(lv, items_end_at as int, ni as int)) =~= prepend(
                    before,
                    locales_from(lv, index as int, ni as int),
                ));
            }
            index = items_end_at;
        }
    }
    proof {
        assert(prepend(out@, names_from(lv, index as int)) =~= Some(out@));
    }
    Some(out)
}

/// Inlines the block-style positions of the lines `ls`.
fn positions_of_lines(ls: &Vec<Vec<char>>) -> (out: Vec<char>)
    ensures
        out@ == positions_from(views(ls@), 0),
{
    let ghost lv = views(ls@);
    let mut out: Vec<char> = Vec::new();
    let mut index: usize = 0;
    let key: [char; 9] = ['p', 'o', 's', 'i', 't', 'i', 'o', 'n', ':'];
    let open: [char; 11] = ['p', 'o', 's', 'i', 't', 'i', 'o', 'n', ':', ' ', '['];
    let comma: [char; 2] = [',', ' '];
    let close: [char; 2] = [']', '\n'];
    while index < ls.len()
        invariant
            lv == views(ls@),
            index <= ls@.len(),
            out@ + positions_from(lv, index as int) == positions_from(lv, 0),
            key@ == position_key(),
            open@ == seq!['p', 'o', 's', 'i', 't', 'i', 'o', 'n', ':', ' ', '['],
            comma@ == seq![',', ' '],
            close@ == seq![']', '\n'],
        decreases ls@.len() - index,
    {
        let line = ls[index].as_slice();
        assert(line@ == lv[index as int]);
        let (a, e) = trim_range(line);
        let mut inlined = false;
        if range_eq(line, a, e, &key) && ls.len() - index > 2 {
            let first = ls[index + 1].as_slice();
            let second = ls[index + 2].as_slice();
            assert(first@ == lv[index + 1]);
            assert(second@ == lv[index + 2]);
            match (dash_item(first), dash_item(second)) {
                (Some((xf, xt)), Some((yf, yt))) => {
                    let ghost before = out@;
                    push_range(&mut out, line, 0, a);
                    push_all(&mut out, &open);
                    push_range(&mut out, first, xf, xt);
                    push_all(&mut out, &comma);
                    push_range(&mut out, second, yf, yt);
                    push_all(&mut out, &close);
                    proof {
                        let pair = position_pair(lv, index as int);
                        assert(pair == Some(
                            (first@.subrange(xf as int, xt as int), second@.subrange(yf as int, yt as int)),
                        ));
                        assert(line@.subrange(0, a as int) =~= leading_ws(line@));
                        let (x, y) = pair->0;
                        assert(out@ =~= before + position_line(line@, x, y));
                        assert(positions_from(lv, index as int) == position_line(line@, x, y)
                            + positions_from(lv, index + 3));
                        assert(out@ + positions_from(lv, index + 3) =~= before + positions_from(
                            lv,
                            index as int,
                        ));
                    }
                    index = index + 3;
                    inlined = true;
                },
                _ => {},
            }
        }
        if !inlined {
            let ghost before = out@;
            push_all(&mut out, line);
            out.push('\n');
            proof {
                assert(position_pair(lv, index as int) is None);
                assert(out@ + positions_from(lv, index + 1) =~= before + positions_from(
                    lv,
                    index as int,
                ));
            }
            index = index + 1;
        }
    }
    assert(out@ + positions_from(lv, index as int) =~= out@);
    out
}

/// Writes every block-style `position:` with two `- ` items in flow style,
/// `position: [x, y]`, keeping the indentation of its key; every line of the
/// result ends in a line feed.
pub fn inline_yaml_positions(yaml: String) -> (r: String)
    ensures
        r@ == spec_inline_yaml_positions(yaml@),
{
    let chars = chars_of(yaml.as_str());
    let lines = split_lines(chars.as_slice());
    let out = positions_of_lines(&lines);
    string_from_chars(out)
}


/// The canonical text: positions inlined first, then localized names, or
/// `None` where YAML rejects the items of a locale.
pub open spec fn spec_canonicalize_yaml(yaml: Seq<char>) -> Option<Seq<char>> {
    spec_inline_yaml_names(spec_inline_yaml_positions(yaml))
}

/// Writes the block sequence of each locale under a `names:` key as a flow
/// sequence on the locale's line (`de: [München]`). A name is kept as
/// written where it is a plain `- scalar` line without flow indicators, and
/// is written as a JSON string otherwise; every line of the result ends in a
/// line feed.
pub fn inline_yaml_names(yaml: String) -> (r: String)
    requires
        spec_inline_yaml_names(yaml@) is Some,
    ensures
        r@ == spec_inline_yaml_names(yaml@)->0,
{
    let chars = chars_of(yaml.as_str());
    let lines = split_lines(chars.as_slice());
    match try_names_of_lines(&lines) {
        Some(out) => string_from_chars(out),
        None => String::new(),
    }
}

/// Applies the manifest's compact canonical style to YAML text: inlines
/// positions, then localized names.
pub fn canonicalize_yaml(yaml: String) -> (r: String)
    requires
        spec_canonicalize_yaml(yaml@) is Some,
    ensures
        r@ == spec_canonicalize_yaml(yaml@)->0,
{
    inline_yaml_names(inline_yaml_positions(yaml))
}

/// Applies the compact canonical style where YAML accepts the items of every
/// locale, and gives `None` otherwise. It reads the name lists once to learn
/// whether `canonicalize_yaml`'s requirement holds, and only then calls it.
pub fn try_canonicalize_yaml(yaml: String) -> (r: Option<String>)
    ensures
        r is Some <==> spec_canonicalize_yaml(yaml@) is Some,
        r matches Some(s) ==> s@ == spec_canonicalize_yaml(yaml@)->0,
{
    let positions = inline_yaml_positions(yaml.clone());
    let chars = chars_of(positions.as_str());
    let lines = split_lines(chars.as_slice());
    match try_names_of_lines(&lines) {
        Some(_) => Some(canonicalize_yaml(yaml)),
        None => None,
    }
}

/// The byte length of the indentation of `line`.
pub fn indentation(line: &str) -> (r: usize)
    requires
        byte_len(line@) <= usize::MAX,
    ensures
        r == byte_len(line@) - byte_len(trim_start(line@)),
        r == indent_of(line@),
{
    let chars = chars_of(line);
    let b = leading_ws_bytes(chars.as_slice());
    b as usize
}

/// Whether `line` is a YAML block-sequence item: after its indentation it is
/// `-` alone or starts with `- `.
pub fn is_sequence_item(line: &str) -> (r: bool)
    ensures
        r == is_seq_item(line@),
{
    let chars = chars_of(line);
    is_seq_item_chars(chars.as_slice())
}

} // verus!
