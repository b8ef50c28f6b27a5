//! Fixed points of the canonical style: writing localized names in flow
//! style a second time changes nothing, and applying the whole style again
//! changes nothing exactly when no block-style position is left.

use vstd::prelude::*;
use crate::manifest_format::{
    item_text,
    positions_from, dash_space,
    ends_names_block, ends_with_colon, indent_of, is_locale_header, is_seq_item, items_end,
    join, json_escape, json_escape_all, lemma_items_end_bounds, lemma_position_out_lines,
    lemma_position_out_no_key, lemma_positions_from_lines, lemma_positions_untouched,
    lemma_terminated_lines_skip, locale_line, has_flow_indicator, json_quote, prepend, locales_from, names_from, names_key, position_key,
    position_out_lines, position_pair, scalar_of, sequence_text, spec_canonicalize_yaml,
    spec_inline_name_scalars, spec_inline_yaml_names, spec_inline_yaml_positions,
    terminated_lines, yaml_string_sequence,
};
use crate::text::{
    byte_len, leading_ws,
    lemma_split_append, lemma_split_newlines_len, split_newlines, lemma_skip_bytes_boundary,
    is_ws, lemma_no_line_breaks_concat, lemma_no_line_breaks_subrange,
    lemma_skip_bytes_no_breaks, lemma_terminated_no_cr, lemma_text_lines_no_breaks,
    lemma_text_lines_terminated, lemma_trim_end_shape, lemma_trim_keeps_last,
    lemma_trim_start_concat, lemma_trim_start_shape, no_cr, no_line_breaks, skip_bytes,
    terminated, text_lines, trim, trim_end, trim_start,
};

verus! {

/// The flow-style line of a locale without its line feed.
pub open spec fn locale_text(locale: Seq<char>, entries: Seq<Seq<char>>) -> Seq<char> {
    locale + seq![' ', '['] + join(entries, seq![',', ' ']) + seq![']']
}

/// `l` in front of the lines in `o`, if there are any.
pub open spec fn prepend_line(l: Seq<char>, o: Option<Seq<Seq<char>>>) -> Option<Seq<Seq<char>>> {
    match o {
        Some(r) => Some(seq![l] + r),
        None => None,
    }
}

/// The lines in `o`, each followed by a line feed.
pub open spec fn terminated_opt(o: Option<Seq<Seq<char>>>) -> Option<Seq<char>> {
    match o {
        Some(ls) => Some(terminated(ls)),
        None => None,
    }
}

/// The lines that the names step writes for lines `i..` outside any
/// `names:` block (without their line feeds).
pub open spec fn names_out_lines(ls: Seq<Seq<char>>, i: int) -> Option<Seq<Seq<char>>>
    decreases ls.len() - i, 0int,
{
    if i < 0 || i >= ls.len() {
        Some(Seq::empty())
    } else if trim(ls[i]) == names_key() {
        prepend_line(ls[i], locales_out_lines(ls, i + 1, indent_of(ls[i]) as int))
    } else {
        prepend_line(ls[i], names_out_lines(ls, i + 1))
    }
}

/// The lines that the names step writes for lines `i..` inside a `names:`
/// block whose key is indented by `ni` bytes.
pub open spec fn locales_out_lines(ls: Seq<Seq<char>>, i: int, ni: int) -> Option<Seq<Seq<char>>>
    decreases ls.len() - i, 1int,
{
    if i < 0 || i >= ls.len() {
        Some(Seq::empty())
    } else if ends_names_block(ls[i], ni) || i + 1 >= ls.len() {
        names_out_lines(ls, i)
    } else if !is_locale_header(ls, i, ni) {
        prepend_line(ls[i], locales_out_lines(ls, i + 1, ni))
    } else {
        let li = indent_of(ls[i]) as int;
        let e = items_end(ls, i + 1, li);
        proof {
            lemma_items_end_bounds(ls, i + 1, li);
        }
        let items = ls.subrange(i + 1, e);
        match yaml_string_sequence(sequence_text(items, li)) {
            Some(names) => prepend_line(
                locale_text(ls[i], spec_inline_name_scalars(items, li, names)),
                locales_out_lines(ls, e, ni),
            ),
            None => None,
        }
    }
}

proof fn lemma_terminated_prepend(l: Seq<char>, r: Seq<Seq<char>>)
    ensures
        terminated(seq![l] + r) == l + seq!['\n'] + terminated(r),
{
    assert((seq![l] + r).drop_first() =~= r);
    assert((seq![l] + r)[0] == l);
}

/// The names step writes its output lines, each with a line feed.
proof fn lemma_names_out_text(ls: Seq<Seq<char>>, i: int)
    ensures
        names_from(ls, i) == terminated_opt(names_out_lines(ls, i)),
    decreases ls.len() - i, 0int,
{
    if 0 <= i < ls.len() {
        if trim(ls[i]) == names_key() {
            lemma_locales_out_text(ls, i + 1, indent_of(ls[i]) as int);
            if let Some(r) = locales_out_lines(ls, i + 1, indent_of(ls[i]) as int) {
                lemma_terminated_prepend(ls[i], r);
            }
        } else {
            lemma_names_out_text(ls, i + 1);
            if let Some(r) = names_out_lines(ls, i + 1) {
                lemma_terminated_prepend(ls[i], r);
            }
        }
    }
}

proof fn lemma_locales_out_text(ls: Seq<Seq<char>>, i: int, ni: int)
    ensures
        locales_from(ls, i, ni) == terminated_opt(locales_out_lines(ls, i, ni)),
    decreases ls.len() - i, 1int,
{
    if 0 <= i < ls.len() {
        if ends_names_block(ls[i], ni) || i + 1 >= ls.len() {
            lemma_names_out_text(ls, i);
        } else if !is_locale_header(ls, i, ni) {
            lemma_locales_out_text(ls, i + 1, ni);
            if let Some(r) = locales_out_lines(ls, i + 1, ni) {
                lemma_terminated_prepend(ls[i], r);
            }
        } else {
            let li = indent_of(ls[i]) as int;
            let e = items_end(ls, i + 1, li);
            lemma_items_end_bounds(ls, i + 1, li);
            lemma_locales_out_text(ls, e, ni);
            let items = ls.subrange(i + 1, e);
            if let Some(names) = yaml_string_sequence(sequence_text(items, li)) {
                let entries = spec_inline_name_scalars(items, li, names);
                if let Some(r) = locales_out_lines(ls, e, ni) {
                    lemma_terminated_prepend(locale_text(ls[i], entries), r);
                    assert(locale_line(ls[i], entries) =~= locale_text(ls[i], entries) + seq![
                        '\n',
                    ]);
                }
            }
        }
    }
}

/// Lines where no `names:` block has a locale key left to inline.
pub open spec fn names_settled_outside(q: Seq<Seq<char>>) -> bool
    decreases q.len(), 0int,
{
    if q.len() == 0 {
        true
    } else if trim(q[0]) == names_key() {
        names_settled_inside(q.drop_first(), indent_of(q[0]) as int)
    } else {
        names_settled_outside(q.drop_first())
    }
}

/// Lines inside a `names:` block whose key is indented by `ni` bytes, where
/// no locale key is left to inline.
pub open spec fn names_settled_inside(q: Seq<Seq<char>>, ni: int) -> bool
    decreases q.len(), 1int,
{
    if q.len() == 0 {
        true
    } else if ends_names_block(q[0], ni) || q.len() == 1 {
        names_settled_outside(q)
    } else {
        !is_locale_header(q, 0, ni) && names_settled_inside(q.drop_first(), ni)
    }
}

/// Settled lines come back unchanged from the names step.
proof fn lemma_settled_outside_untouched(ls: Seq<Seq<char>>, i: int)
    requires
        0 <= i <= ls.len(),
        names_settled_outside(ls.skip(i)),
    ensures
        names_from(ls, i) == Some(terminated_lines(ls, i)),
    decreases ls.len() - i, 0int,
{
    if i < ls.len() {
        let q = ls.skip(i);
        assert(q[0] == ls[i]);
        assert(q.drop_first() =~= ls.skip(i + 1));
        if trim(ls[i]) == names_key() {
            lemma_settled_inside_untouched(ls, i + 1, indent_of(ls[i]) as int);
        } else {
            lemma_settled_outside_untouched(ls, i + 1);
        }
    }
}

proof fn lemma_settled_inside_untouched(ls: Seq<Seq<char>>, i: int, ni: int)
    requires
        0 <= i <= ls.len(),
        names_settled_inside(ls.skip(i), ni),
    ensures
        locales_from(ls, i, ni) == Some(terminated_lines(ls, i)),
    decreases ls.len() - i, 1int,
{
    if i < ls.len() {
        let q = ls.skip(i);
        assert(q[0] == ls[i]);
        assert(q.drop_first() =~= ls.skip(i + 1));
        if ends_names_block(ls[i], ni) || i + 1 >= ls.len() {
            lemma_settled_outside_untouched(ls, i);
        } else {
            assert(q[1] == ls[i + 1]);
            assert(is_locale_header(q, 0, ni) == is_locale_header(ls, i, ni));
            lemma_settled_inside_untouched(ls, i + 1, ni);
        }
    }
}

/// The flow-style line of a locale key keeps the key's indentation and
/// whether it reads as a sequence item, and is neither a key that ends in
/// `:` nor a `names:` key.
proof fn lemma_locale_text_shape(l: Seq<char>, entries: Seq<Seq<char>>)
    requires
        ends_with_colon(l),
    ensures
        indent_of(locale_text(l, entries)) == indent_of(l),
        is_seq_item(locale_text(l, entries)) == is_seq_item(l),
        !ends_with_colon(locale_text(l, entries)),
        trim(locale_text(l, entries)) != names_key(),
{
    let suffix = seq![' ', '['] + join(entries, seq![',', ' ']) + seq![']'];
    let t = locale_text(l, entries);
    assert(t =~= l + suffix);
    lemma_trim_end_shape(l);
    lemma_trim_start_shape(l);
    let m = trim_end(l).len() as int;
    let a = trim_start(l);
    let n = l.len() - a.len();
    assert(l[m - 1] == ':');
    if m - 1 < n {
        assert(is_ws(l[m - 1]));
    }
    assert(a[m - 1 - n] == ':');
    lemma_trim_start_concat(l, suffix);
    assert(trim_start(t) == a + suffix);
    assert(a != seq!['-']) by {
        if a == seq!['-'] {
            assert(a[0] == '-');
        }
    }
    let at = a + suffix;
    assert(at.len() >= 3);
    if a.len() >= 2 {
        assert(at.take(2) =~= a.take(2));
    } else {
        assert(a.len() == 1);
        assert(at.take(2)[0] == ':');
    }
    assert(at != seq!['-']) by {
        if at == seq!['-'] {
            assert(at.len() == 1);
        }
    }
    assert(t.last() == ']');
    lemma_trim_keeps_last(t);
}

proof fn lemma_join_no_breaks(list: Seq<Seq<char>>, sep: Seq<char>)
    requires
        no_line_breaks(sep),
        forall|k: int| 0 <= k < list.len() ==> no_line_breaks(#[trigger] list[k]),
    ensures
        no_line_breaks(join(list, sep)),
    decreases list.len(),
{
    if list.len() == 1 {
        assert(no_line_breaks(list[0]));
    } else if list.len() > 1 {
        lemma_join_no_breaks(list.drop_last(), sep);
        assert(no_line_breaks(list[list.len() - 1]));
        lemma_no_line_breaks_concat(join(list.drop_last(), sep), sep);
        lemma_no_line_breaks_concat(join(list.drop_last(), sep) + sep, list.last());
    }
}

proof fn lemma_json_escape_all_no_breaks(s: Seq<char>)
    ensures
        no_line_breaks(json_escape_all(s)),
    decreases s.len(),
{
    if s.len() > 0 {
        lemma_json_escape_all_no_breaks(s.drop_last());
        let c = s.last();
        assert(no_line_breaks(json_escape(c)));
        lemma_no_line_breaks_concat(json_escape_all(s.drop_last()), json_escape(c));
    }
}

/// The entries of a locale's flow sequence hold no line breaks.
proof fn lemma_entries_no_breaks(items: Seq<Seq<char>>, li: int, names: Seq<Seq<char>>)
    requires
        forall|k: int| 0 <= k < items.len() ==> no_line_breaks(#[trigger] items[k]),
    ensures
        no_line_breaks(locale_text(seq![], spec_inline_name_scalars(items, li, names))),
        forall|k: int|
            0 <= k < spec_inline_name_scalars(items, li, names).len() ==> no_line_breaks(
                #[trigger] spec_inline_name_scalars(items, li, names)[k],
            ),
{
    let entries = spec_inline_name_scalars(items, li, names);
    assert forall|k: int| 0 <= k < entries.len() implies no_line_breaks(#[trigger] entries[k]) by {
        if k < names.len() {
            lemma_json_escape_all_no_breaks(names[k]);
            lemma_no_line_breaks_concat(seq!['"'], json_escape_all(names[k]));
            lemma_no_line_breaks_concat(seq!['"'] + json_escape_all(names[k]), seq!['"']);
        }
        if items.len() == names.len() && (forall|q: int|
            0 <= q < items.len() ==> (#[trigger] scalar_of(items[q], li)) is Some) {
            assert(no_line_breaks(items[k]));
            assert(scalar_of(items[k], li) is Some);
            assert(skip_bytes(items[k], li) is Some);
            lemma_skip_bytes_no_breaks(items[k], li);
            let r = skip_bytes(items[k], li)->0;
            lemma_no_line_breaks_subrange(r, 2, r.len() as int);
            assert(r.subrange(2, r.len() as int) =~= r.skip(2));
        }
    }
    lemma_join_no_breaks(entries, seq![',', ' ']);
    lemma_no_line_breaks_concat(seq![' ', '['], join(entries, seq![',', ' ']));
    lemma_no_line_breaks_concat(
        seq![' ', '['] + join(entries, seq![',', ' ']),
        seq![']'],
    );
    assert(locale_text(seq![], entries) =~= seq![' ', '['] + join(entries, seq![',', ' '])
        + seq![']']);
}

/// The names step writes lines without line breaks from lines without them.
proof fn lemma_names_out_no_breaks(ls: Seq<Seq<char>>, i: int)
    requires
        forall|k: int| 0 <= k < ls.len() ==> no_line_breaks(#[trigger] ls[k]),
    ensures
        names_out_lines(ls, i) matches Some(o) ==> forall|j: int|
            0 <= j < o.len() ==> no_line_breaks(#[trigger] o[j]),
    decreases ls.len() - i, 0int,
{
    if 0 <= i < ls.len() {
        let r = if trim(ls[i]) == names_key() {
            lemma_locales_out_no_breaks(ls, i + 1, indent_of(ls[i]) as int);
            locales_out_lines(ls, i + 1, indent_of(ls[i]) as int)
        } else {
            lemma_names_out_no_breaks(ls, i + 1);
            names_out_lines(ls, i + 1)
        };
        if let Some(rest) = r {
            let o = seq![ls[i]] + rest;
            assert forall|j: int| 0 <= j < o.len() implies no_line_breaks(#[trigger] o[j]) by {
                if j > 0 {
                    assert(o[j] == rest[j - 1]);
                }
            }
        }
    }
}

proof fn lemma_locales_out_no_breaks(ls: Seq<Seq<char>>, i: int, ni: int)
    requires
        forall|k: int| 0 <= k < ls.len() ==> no_line_breaks(#[trigger] ls[k]),
    ensures
        locales_out_lines(ls, i, ni) matches Some(o) ==> forall|j: int|
            0 <= j < o.len() ==> no_line_breaks(#[trigger] o[j]),
    decreases ls.len() - i, 1int,
{
    if 0 <= i < ls.len() {
        if ends_names_block(ls[i], ni) || i + 1 >= ls.len() {
            lemma_names_out_no_breaks(ls, i);
        } else if !is_locale_header(ls, i, ni) {
            lemma_locales_out_no_breaks(ls, i + 1, ni);
            if let Some(rest) = locales_out_lines(ls, i + 1, ni) {
                let o = seq![ls[i]] + rest;
                assert forall|j: int| 0 <= j < o.len() implies no_line_breaks(#[trigger] o[j]) by {
                    if j > 0 {
                        assert(o[j] == rest[j - 1]);
                    }
                }
            }
        } else {
            let li = indent_of(ls[i]) as int;
            let e = items_end(ls, i + 1, li);
            lemma_items_end_bounds(ls, i + 1, li);
            lemma_locales_out_no_breaks(ls, e, ni);
            let items = ls.subrange(i + 1, e);
            if let Some(names) = yaml_string_sequence(sequence_text(items, li)) {
                let entries = spec_inline_name_scalars(items, li, names);
                assert forall|k: int| 0 <= k < items.len() implies no_line_breaks(
                    #[trigger] items[k],
                ) by {
                    assert(items[k] == ls[i + 1 + k]);
                }
                lemma_entries_no_breaks(items, li, names);
                let t = locale_text(ls[i], entries);
                assert(t =~= ls[i] + locale_text(seq![], entries));
                lemma_no_line_breaks_concat(ls[i], locale_text(seq![], entries));
                if let Some(rest) = locales_out_lines(ls, e, ni) {
                    let o = seq![t] + rest;
                    assert forall|j: int| 0 <= j < o.len() implies no_line_breaks(
                        #[trigger] o[j],
                    ) by {
                        if j > 0 {
                            assert(o[j] == rest[j - 1]);
                        }
                    }
                }
            }
        }
    }
}

/// The names step leaves no locale key to inline, and its first output line
/// corresponds to its first input line.
proof fn lemma_names_out_settled(ls: Seq<Seq<char>>, i: int)
    requires
        0 <= i <= ls.len(),
    ensures
        names_out_lines(ls, i) matches Some(o) ==> names_settled_outside(o) && (i < ls.len()
            ==> o.len() >= 1 && o[0] == ls[i]),
    decreases ls.len() - i, 0int,
{
    if i < ls.len() {
        let r = if trim(ls[i]) == names_key() {
            lemma_locales_out_settled(ls, i + 1, indent_of(ls[i]) as int);
            locales_out_lines(ls, i + 1, indent_of(ls[i]) as int)
        } else {
            lemma_names_out_settled(ls, i + 1);
            names_out_lines(ls, i + 1)
        };
        if let Some(rest) = r {
            let o = seq![ls[i]] + rest;
            assert(o.drop_first() =~= rest);
            assert(o[0] == ls[i]);
        }
    }
}

proof fn lemma_locales_out_settled(ls: Seq<Seq<char>>, i: int, ni: int)
    requires
        0 <= i <= ls.len(),
    ensures
        locales_out_lines(ls, i, ni) matches Some(o) ==> names_settled_inside(o, ni) && (i
            < ls.len() ==> o.len() >= 1 && indent_of(o[0]) == indent_of(ls[i]) && is_seq_item(
            o[0],
        ) == is_seq_item(ls[i])),
    decreases ls.len() - i, 1int,
{
    if i < ls.len() {
        if ends_names_block(ls[i], ni) || i + 1 >= ls.len() {
            lemma_names_out_settled(ls, i);
            if i + 1 >= ls.len() {
                assert(names_out_lines(ls, i + 1) == Some(Seq::<Seq<char>>::empty()));
                assert(locales_out_lines(ls, i + 1, indent_of(ls[i]) as int) == Some(
                    Seq::<Seq<char>>::empty(),
                ));
                if let Some(o) = names_out_lines(ls, i) {
                    assert(o.len() == 1);
                    assert(names_settled_inside(o, ni));
                }
            }
        } else if !is_locale_header(ls, i, ni) {
            lemma_locales_out_settled(ls, i + 1, ni);
            if let Some(rest) = locales_out_lines(ls, i + 1, ni) {
                let o = seq![ls[i]] + rest;
                assert(o.drop_first() =~= rest);
                assert(o[0] == ls[i]);
                assert(o[1] == rest[0]);
                assert(is_locale_header(o, 0, ni) == is_locale_header(ls, i, ni));
            }
        } else {
            let li = indent_of(ls[i]) as int;
            let e = items_end(ls, i + 1, li);
            lemma_items_end_bounds(ls, i + 1, li);
            lemma_locales_out_settled(ls, e, ni);
            let items = ls.subrange(i + 1, e);
            if let Some(names) = yaml_string_sequence(sequence_text(items, li)) {
                let entries = spec_inline_name_scalars(items, li, names);
                let t = locale_text(ls[i], entries);
                lemma_locale_text_shape(ls[i], entries);
                if let Some(rest) = locales_out_lines(ls, e, ni) {
                    let o = seq![t] + rest;
                    assert(o.drop_first() =~= rest);
                    assert(o[0] == t);
                    if o.len() == 1 {
                        assert(rest.len() == 0);
                        assert(o.drop_first().len() == 0);
                        assert(names_settled_outside(o.drop_first()));
                        assert(names_settled_outside(o));
                    }
                    assert(names_settled_inside(o, ni));
                }
            }
        }
    }
}

/// Writing localized names in flow style a second time changes nothing, for
/// text without carriage returns whose names YAML reads.
pub proof fn lemma_names_idempotent(yaml: Seq<char>)
    requires
        no_cr(yaml),
        spec_inline_yaml_names(yaml) is Some,
    ensures
        spec_inline_yaml_names(spec_inline_yaml_names(yaml)->0) == spec_inline_yaml_names(yaml),
{
    let ls = text_lines(yaml);
    lemma_text_lines_no_breaks(yaml);
    lemma_names_out_text(ls, 0);
    let o = names_out_lines(ls, 0)->0;
    let out = terminated(o);
    assert(spec_inline_yaml_names(yaml) == Some(out));
    lemma_names_out_no_breaks(ls, 0);
    lemma_text_lines_terminated(o);
    lemma_names_out_settled(ls, 0);
    assert(o.skip(0) =~= o);
    lemma_settled_outside_untouched(o, 0);
    lemma_terminated_lines_skip(o, 0);
}

/// Where no input line is a `position:` key, no line that the names step
/// writes is one.
proof fn lemma_names_out_no_key(ls: Seq<Seq<char>>, i: int)
    requires
        forall|k: int| 0 <= k < ls.len() ==> trim(#[trigger] ls[k]) != position_key(),
    ensures
        names_out_lines(ls, i) matches Some(o) ==> forall|j: int|
            0 <= j < o.len() ==> trim(#[trigger] o[j]) != position_key(),
    decreases ls.len() - i, 0int,
{
    if 0 <= i < ls.len() {
        let r = if trim(ls[i]) == names_key() {
            lemma_locales_out_no_key(ls, i + 1, indent_of(ls[i]) as int);
            locales_out_lines(ls, i + 1, indent_of(ls[i]) as int)
        } else {
            lemma_names_out_no_key(ls, i + 1);
            names_out_lines(ls, i + 1)
        };
        if let Some(rest) = r {
            let o = seq![ls[i]] + rest;
            assert forall|j: int| 0 <= j < o.len() implies trim(#[trigger] o[j]) != position_key() by {
                if j > 0 {
                    assert(o[j] == rest[j - 1]);
                }
            }
        }
    }
}

proof fn lemma_locales_out_no_key(ls: Seq<Seq<char>>, i: int, ni: int)
    requires
        forall|k: int| 0 <= k < ls.len() ==> trim(#[trigger] ls[k]) != position_key(),
    ensures
        locales_out_lines(ls, i, ni) matches Some(o) ==> forall|j: int|
            0 <= j < o.len() ==> trim(#[trigger] o[j]) != position_key(),
    decreases ls.len() - i, 1int,
{
    if 0 <= i < ls.len() {
        if ends_names_block(ls[i], ni) || i + 1 >= ls.len() {
            lemma_names_out_no_key(ls, i);
        } else if !is_locale_header(ls, i, ni) {
            lemma_locales_out_no_key(ls, i + 1, ni);
            if let Some(rest) = locales_out_lines(ls, i + 1, ni) {
                let o = seq![ls[i]] + rest;
                assert forall|j: int| 0 <= j < o.len() implies trim(#[trigger] o[j])
                    != position_key() by {
                    if j > 0 {
                        assert(o[j] == rest[j - 1]);
                    }
                }
            }
        } else {
            let li = indent_of(ls[i]) as int;
            let e = items_end(ls, i + 1, li);
            lemma_items_end_bounds(ls, i + 1, li);
            lemma_locales_out_no_key(ls, e, ni);
            let items = ls.subrange(i + 1, e);
            if let Some(names) = yaml_string_sequence(sequence_text(items, li)) {
                let t = locale_text(ls[i], spec_inline_name_scalars(items, li, names));
                assert(t.last() == ']');
                lemma_trim_keeps_last(t);
                if let Some(rest) = locales_out_lines(ls, e, ni) {
                    let o = seq![t] + rest;
                    assert forall|j: int| 0 <= j < o.len() implies trim(#[trigger] o[j])
                        != position_key() by {
                        if j > 0 {
                            assert(o[j] == rest[j - 1]);
                        } else {
                            assert(position_key().last() == ':');
                        }
                    }
                }
            }
        }
    }
}

/// Applying the canonical style a second time changes nothing, for text
/// without carriage returns whose names YAML reads and whose every
/// `position:` key starts a block-style position.
pub proof fn lemma_canonical_idempotent_when_positions_inlined(yaml: Seq<char>)
    requires
        no_cr(yaml),
        spec_canonicalize_yaml(yaml) is Some,
        forall|k: int|
            0 <= k < text_lines(yaml).len() && trim(#[trigger] text_lines(yaml)[k])
                == position_key() ==> position_pair(text_lines(yaml), k) is Some,
    ensures
        spec_canonicalize_yaml(spec_canonicalize_yaml(yaml)->0) == spec_canonicalize_yaml(yaml),
{
    let ls = text_lines(yaml);
    lemma_text_lines_no_breaks(yaml);
    lemma_position_out_lines(ls, 0);
    lemma_positions_from_lines(ls, 0);
    lemma_position_out_no_key(ls, 0);
    let pol = position_out_lines(ls, 0);
    let p = spec_inline_yaml_positions(yaml);
    lemma_text_lines_terminated(pol);
    lemma_names_out_text(pol, 0);
    let o = names_out_lines(pol, 0)->0;
    let c = spec_canonicalize_yaml(yaml)->0;
    assert(c == terminated(o));
    lemma_names_out_no_breaks(pol, 0);
    lemma_text_lines_terminated(o);
    lemma_names_out_no_key(pol, 0);
    assert forall|k: int| 0 <= k < o.len() implies (#[trigger] position_pair(o, k)) is None by {
        assert(trim(o[k]) != position_key());
    }
    lemma_canonical_idempotent(yaml);
}

/// Applying the canonical style a second time changes nothing, for text
/// without carriage returns whose names YAML reads and whose canonical text
/// has no block-style position left (a `position:` line followed by two
/// `- ` items), which the position step of the second pass would inline.
pub proof fn lemma_canonical_idempotent(yaml: Seq<char>)
    requires
        no_cr(yaml),
        spec_canonicalize_yaml(yaml) is Some,
        forall|k: int|
            0 <= k < text_lines(spec_canonicalize_yaml(yaml)->0).len() ==> (
            #[trigger] position_pair(text_lines(spec_canonicalize_yaml(yaml)->0), k)) is None,
    ensures
        spec_canonicalize_yaml(spec_canonicalize_yaml(yaml)->0) == spec_canonicalize_yaml(yaml),
{
    let ls = text_lines(yaml);
    lemma_text_lines_no_breaks(yaml);
    lemma_position_out_lines(ls, 0);
    lemma_positions_from_lines(ls, 0);
    let pol = position_out_lines(ls, 0);
    let p = spec_inline_yaml_positions(yaml);
    assert(p == terminated(pol));
    lemma_text_lines_terminated(pol);
    lemma_terminated_no_cr(pol);
    lemma_names_idempotent(p);
    let c = spec_inline_yaml_names(p)->0;
    lemma_names_out_text(pol, 0);
    let o = names_out_lines(pol, 0)->0;
    assert(c == terminated(o));
    lemma_names_out_no_breaks(pol, 0);
    lemma_text_lines_terminated(o);
    lemma_positions_untouched(o, 0);
    lemma_terminated_lines_skip(o, 0);
    assert(o.skip(0) =~= o);
    assert(spec_inline_yaml_positions(c) == c);
}

/// A position that starts at line `k` or later shortens the lines that the
/// position step writes from line `i` on.
proof fn lemma_position_out_shorter(ls: Seq<Seq<char>>, i: int, k: int)
    requires
        0 <= i <= k < ls.len(),
        position_pair(ls, k) is Some,
    ensures
        position_out_lines(ls, i).len() < ls.len() - i,
    decreases ls.len() - i,
{
    lemma_position_out_lines(ls, i);
    if position_pair(ls, i) is Some {
        lemma_position_out_lines(ls, i + 3);
        assert(position_out_lines(ls, i) =~= seq![position_out_lines(ls, i)[0]]
            + position_out_lines(ls, i + 3));
    } else {
        lemma_position_out_shorter(ls, i + 1, k);
        assert(position_out_lines(ls, i) =~= seq![ls[i]] + position_out_lines(ls, i + 1));
    }
}

/// The names step writes no more lines than it reads.
proof fn lemma_names_out_len(ls: Seq<Seq<char>>, i: int)
    requires
        0 <= i <= ls.len(),
    ensures
        names_out_lines(ls, i) matches Some(o) ==> o.len() <= ls.len() - i,
    decreases ls.len() - i, 0int,
{
    if i < ls.len() {
        if trim(ls[i]) == names_key() {
            lemma_locales_out_len(ls, i + 1, indent_of(ls[i]) as int);
        } else {
            lemma_names_out_len(ls, i + 1);
        }
    }
}

proof fn lemma_locales_out_len(ls: Seq<Seq<char>>, i: int, ni: int)
    requires
        0 <= i <= ls.len(),
    ensures
        locales_out_lines(ls, i, ni) matches Some(o) ==> o.len() <= ls.len() - i,
    decreases ls.len() - i, 1int,
{
    if i < ls.len() {
        if ends_names_block(ls[i], ni) || i + 1 >= ls.len() {
            lemma_names_out_len(ls, i);
        } else if !is_locale_header(ls, i, ni) {
            lemma_locales_out_len(ls, i + 1, ni);
        } else {
            let li = indent_of(ls[i]) as int;
            lemma_items_end_bounds(ls, i + 1, li);
            lemma_locales_out_len(ls, items_end(ls, i + 1, li), ni);
        }
    }
}

/// For text without carriage returns whose names YAML reads, the canonical
/// text is a fixed point of the canonical style exactly when no block-style
/// position (a `position:` line followed by two `- ` items) is left in it.
pub proof fn lemma_canonical_fixed_point_exactly(yaml: Seq<char>)
    requires
        no_cr(yaml),
        spec_canonicalize_yaml(yaml) is Some,
    ensures
        spec_canonicalize_yaml(spec_canonicalize_yaml(yaml)->0) == spec_canonicalize_yaml(yaml)
            <==> forall|k: int|
            0 <= k < text_lines(spec_canonicalize_yaml(yaml)->0).len() ==> (
            #[trigger] position_pair(text_lines(spec_canonicalize_yaml(yaml)->0), k)) is None,
{
    let c = spec_canonicalize_yaml(yaml)->0;
    if forall|k: int|
        0 <= k < text_lines(c).len() ==> (#[trigger] position_pair(text_lines(c), k)) is None {
        lemma_canonical_idempotent(yaml);
    } else {
        let ls = text_lines(yaml);
        lemma_text_lines_no_breaks(yaml);
        lemma_position_out_lines(ls, 0);
        lemma_positions_from_lines(ls, 0);
        let pol = position_out_lines(ls, 0);
        lemma_text_lines_terminated(pol);
        lemma_names_out_text(pol, 0);
        let o = names_out_lines(pol, 0)->0;
        assert(c == terminated(o));
        lemma_names_out_no_breaks(pol, 0);
        lemma_text_lines_terminated(o);
        let k = choose|k: int|
            0 <= k < text_lines(c).len() && (#[trigger] position_pair(text_lines(c), k)) is Some;
        lemma_position_out_shorter(o, 0, k);
        lemma_position_out_lines(o, 0);
        lemma_positions_from_lines(o, 0);
        let q = position_out_lines(o, 0);
        assert(spec_inline_yaml_positions(c) == terminated(q));
        lemma_text_lines_terminated(q);
        lemma_names_out_text(q, 0);
        lemma_names_out_no_breaks(q, 0);
        lemma_names_out_len(q, 0);
        if let Some(x) = names_out_lines(q, 0) {
            lemma_text_lines_terminated(x);
            if terminated(x) == c {
                assert(x == o);
            }
        }
    }
}

/// Joining pieces without line feeds by line feeds, then splitting at the
/// line feeds, gives the pieces back.
pub proof fn lemma_split_join(parts: Seq<Seq<char>>)
    requires
        parts.len() > 0,
        forall|k: int, j: int|
            0 <= k < parts.len() && 0 <= j < parts[k].len() ==> #[trigger] parts[k][j] != '\n',
    ensures
        split_newlines(join(parts, seq!['\n'])) == parts,
    decreases parts.len(),
{
    let last = parts.last();
    assert forall|j: int| 0 <= j < last.len() implies last[j] != '\n' by {
        assert(parts[parts.len() - 1][j] != '\n');
    }
    if parts.len() == 1 {
        lemma_split_append(Seq::<char>::empty(), last);
        assert(Seq::<char>::empty() + last =~= last);
        assert(split_newlines(Seq::<char>::empty()) =~= seq![Seq::<char>::empty()]);
        assert(seq![Seq::<char>::empty()].update(0, Seq::<char>::empty() + last) =~= parts);
    } else {
        let init = parts.drop_last();
        assert forall|k: int, j: int| 0 <= k < init.len() && 0 <= j < init[k].len() implies #[trigger] init[k][j]
            != '\n' by {
            assert(init[k] == parts[k]);
        }
        lemma_split_join(init);
        let a = join(init, seq!['\n']);
        lemma_split_append(a.push('\n'), last);
        assert(a + seq!['\n'] + last =~= a.push('\n') + last);
        assert(a.push('\n').drop_last() =~= a);
        lemma_split_newlines_len(a);
        let r = split_newlines(a.push('\n'));
        assert(r =~= init.push(Seq::<char>::empty()));
        assert(r.update(r.len() - 1, r.last() + last) =~= parts);
    }
}

/// The text that YAML reads for a locale holds every item line of the
/// locale, in order, one per line: the line after its first `li` bytes where
/// that is a character boundary, the whole line otherwise.
pub proof fn lemma_sequence_text_lines(items: Seq<Seq<char>>, li: int)
    requires
        items.len() > 0,
        forall|k: int, j: int|
            0 <= k < items.len() && 0 <= j < items[k].len() ==> #[trigger] items[k][j] != '\n',
    ensures
        split_newlines(sequence_text(items, li)).len() == items.len(),
        forall|k: int|
            0 <= k < items.len() ==> #[trigger] split_newlines(sequence_text(items, li))[k]
                == match skip_bytes(items[k], li) {
                Some(r) => r,
                None => items[k],
            },
{
    let parts = Seq::new(
        items.len(),
        |k: int|
            match skip_bytes(items[k], li) {
                Some(r) => r,
                None => items[k],
            },
    );
    assert forall|k: int, j: int| 0 <= k < parts.len() && 0 <= j < parts[k].len() implies #[trigger] parts[k][j]
        != '\n' by {
        lemma_skip_bytes_boundary(items[k], li);
        if let Some(r) = skip_bytes(items[k], li) {
            let n = choose|n: int|
                0 <= n <= items[k].len() && r == items[k].skip(n) && byte_len(
                    #[trigger] items[k].take(n),
                ) == li;
            assert(parts[k][j] == items[k][n + j]);
        }
    }
    lemma_split_join(parts);
    assert(Seq::new(items.len(), |k: int| item_text(items[k], li)) =~= parts);
    assert(sequence_text(items, li) == join(parts, seq!['\n']));
}

/// A `position:` line followed by two `- ` items is written as one line: the
/// key's indentation, `position: [`, the first item's text after `- ` as
/// written, `, `, the second item's text after `- ` as written, and `]`.
pub proof fn lemma_position_written_as_flow(
    ls: Seq<Seq<char>>,
    i: int,
    x: Seq<char>,
    y: Seq<char>,
)
    requires
        0 <= i,
        i + 2 < ls.len(),
        trim(ls[i]) == seq!['p', 'o', 's', 'i', 't', 'i', 'o', 'n', ':'],
        trim(ls[i + 1]) == seq!['-', ' '] + x,
        trim(ls[i + 2]) == seq!['-', ' '] + y,
    ensures
        positions_from(ls, i) == leading_ws(ls[i]) + seq![
            'p',
            'o',
            's',
            'i',
            't',
            'i',
            'o',
            'n',
            ':',
            ' ',
            '[',
        ] + x + seq![',', ' '] + y + seq![']', '\n'] + positions_from(ls, i + 3),
{
    assert((seq!['-', ' '] + x).take(2) =~= seq!['-', ' ']);
    assert((seq!['-', ' '] + x).skip(2) =~= x);
    assert((seq!['-', ' '] + y).take(2) =~= seq!['-', ' ']);
    assert((seq!['-', ' '] + y).skip(2) =~= y);
    assert(position_pair(ls, i) == Some((x, y)));
}

/// A line that does not start a `position:` block of two `- ` items is
/// written as it is, with a line feed.
pub proof fn lemma_position_other_line_kept(ls: Seq<Seq<char>>, i: int)
    requires
        0 <= i < ls.len(),
        !(i + 2 < ls.len() && trim(ls[i]) == seq!['p', 'o', 's', 'i', 't', 'i', 'o', 'n', ':']
            && (exists|x: Seq<char>| trim(ls[i + 1]) == seq!['-', ' '] + x) && (exists|
            y: Seq<char>,
        | trim(ls[i + 2]) == seq!['-', ' '] + y)),
    ensures
        positions_from(ls, i) == ls[i] + seq!['\n'] + positions_from(ls, i + 1),
{
    if position_pair(ls, i) is Some {
        let t1 = trim(ls[i + 1]);
        let t2 = trim(ls[i + 2]);
        assert(t1 =~= seq!['-', ' '] + t1.skip(2));
        assert(t2 =~= seq!['-', ' '] + t2.skip(2));
    }
}

/// Where a locale has one plain `- scalar` item line per name that YAML
/// reads, its flow sequence holds one entry per item line, in order: the
/// scalar as written, or the name as a JSON string where the scalar holds a
/// flow indicator.
pub proof fn lemma_plain_items_inlined(items: Seq<Seq<char>>, li: int, names: Seq<Seq<char>>)
    requires
        items.len() == names.len(),
        forall|k: int| 0 <= k < items.len() ==> (#[trigger] scalar_of(items[k], li)) is Some,
    ensures
        spec_inline_name_scalars(items, li, names).len() == items.len(),
        forall|k: int|
            0 <= k < items.len() && !has_flow_indicator(#[trigger] scalar_of(items[k], li)->0)
                ==> spec_inline_name_scalars(items, li, names)[k] == scalar_of(items[k], li)->0,
        forall|k: int|
            0 <= k < items.len() && has_flow_indicator(#[trigger] scalar_of(items[k], li)->0)
                ==> spec_inline_name_scalars(items, li, names)[k] == json_quote(names[k]),
{
}

/// Where the item lines of a locale are not one plain `- scalar` line per
/// name, every name is written as a JSON string, in order.
pub proof fn lemma_other_items_quoted(items: Seq<Seq<char>>, li: int, names: Seq<Seq<char>>)
    requires
        items.len() != names.len() || exists|k: int|
            0 <= k < items.len() && (#[trigger] scalar_of(items[k], li)) is None,
    ensures
        spec_inline_name_scalars(items, li, names) == Seq::new(
            names.len(),
            |k: int| json_quote(names[k]),
        ),
{
}

/// A locale line two bytes under `names:` whose block sequence starts on
/// the next line is written as the locale's line, ` [`, the entries
/// separated by `, `, `]` and a line feed, and what follows its item lines
/// comes after; where YAML rejects its items there is no output.
pub proof fn lemma_locale_written_as_flow(ls: Seq<Seq<char>>, i: int, ni: int)
    requires
        0 <= i,
        i + 1 < ls.len(),
        !ends_names_block(ls[i], ni),
        is_locale_header(ls, i, ni),
    ensures
        ({
            let li = indent_of(ls[i]) as int;
            let e = items_end(ls, i + 1, li);
            let items = ls.subrange(i + 1, e);
            &&& i + 1 < e <= ls.len()
            &&& match yaml_string_sequence(sequence_text(items, li)) {
                Some(names) => locales_from(ls, i, ni) == prepend(
                    ls[i] + seq![' ', '['] + join(
                        spec_inline_name_scalars(items, li, names),
                        seq![',', ' '],
                    ) + seq![']', '\n'],
                    locales_from(ls, e, ni),
                ),
                None => locales_from(ls, i, ni) is None,
            }
        }),
{
    let li = indent_of(ls[i]) as int;
    lemma_items_end_bounds(ls, i + 1, li);
}

} // verus!
