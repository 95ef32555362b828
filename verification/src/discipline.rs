//! What a template and its values keep to for the renderer to leave no
//! placeholder behind.
//!
//! The renderer replaces text by text and does not know what a placeholder
//! is. A value may bring a placeholder with it, and a value that is put
//! between a `$` and a `{{` makes a new opening of the two. Two disciplines
//! rule both out, and a law is proved under each:
//!
//! - Every opening `${{` of the template begins the placeholder of a value,
//!   and the values are plain: not empty, and without `$` and `{`. A `$`
//!   that begins no placeholder may then stand anywhere in the template.
//! - The values may be empty and may hold `{`, but no `$`, and every `$` of
//!   the template either begins the placeholder of a value or is loose,
//!   which is to say that nothing put next to it can make an opening of it.
//!
//! In both no id holds a `$`.

use crate::coerce::{lemma_decimal_digits_value, spec_canonical_text, TypedValueView};
use crate::collector::ResolvedValueView;
use crate::render::{resolved_ids, spec_placeholder, spec_render};
use crate::text::{
    lemma_replace_all_head, lemma_replace_all_step, occurs_at, occurs_in, spec_replace_all,
};
use vstd::prelude::*;

verus! {

/// `text` holds no `$`.
pub open spec fn dollar_free(text: Seq<char>) -> bool {
    forall|i: int| 0 <= i < text.len() ==> text[i] != '$'
}

/// The opening of a placeholder, `${{`, stands in `text` at `at`.
pub open spec fn opens_at(text: Seq<char>, at: int) -> bool {
    &&& 0 <= at
    &&& at + 2 < text.len()
    &&& text[at] == '$'
    &&& text[at + 1] == '{'
    &&& text[at + 2] == '{'
}

/// The placeholder of one of the ids from position `from` on stands in
/// `text` at `at`.
pub open spec fn anchored_at(text: Seq<char>, ids: Seq<Seq<char>>, from: int, at: int) -> bool {
    exists|k: int|
        from <= k < ids.len() && occurs_at(text, spec_placeholder(#[trigger] ids[k]), at)
}

/// Nothing that is put in the place of the placeholders next to position
/// `at` can make an opening begin there: no `{{` follows, and no placeholder
/// of the ids from `from` on begins at the next position, nor behind a `{`
/// at the next position.
pub open spec fn loose_at(text: Seq<char>, ids: Seq<Seq<char>>, from: int, at: int) -> bool {
    &&& !opens_at(text, at)
    &&& !anchored_at(text, ids, from, at + 1)
    &&& !(at + 1 < text.len() && text[at + 1] == '{' && anchored_at(text, ids, from, at + 2))
}

/// Every `$` of `text` either begins the placeholder of one of the ids from
/// position `from` on, or is loose.
pub open spec fn disciplined(text: Seq<char>, ids: Seq<Seq<char>>, from: int) -> bool {
    forall|at: int|
        0 <= at < text.len() && #[trigger] text[at] == '$' ==> anchored_at(text, ids, from, at)
            || loose_at(text, ids, from, at)
}

/// A placeholder begins with `${{`, and holds no other `$` than its first
/// character if its id holds none.
pub proof fn lemma_placeholder_shape(id: Seq<char>)
    ensures
        spec_placeholder(id).len() == id.len() + 5,
        spec_placeholder(id)[0] == '$',
        spec_placeholder(id)[1] == '{',
        spec_placeholder(id)[2] == '{',
        dollar_free(id) ==> dollar_free(spec_placeholder(id).skip(1)),
{
}

proof fn lemma_occurs_skip(text: Seq<char>, needle: Seq<char>, d: int, at: int)
    requires
        0 <= d <= text.len(),
        0 <= at,
    ensures
        occurs_at(text.skip(d), needle, at) == occurs_at(text, needle, at + d),
{
    if at + needle.len() <= text.len() - d {
        assert(text.skip(d).subrange(at, at + needle.len()) =~= text.subrange(
            at + d,
            at + d + needle.len(),
        ));
    }
}

proof fn lemma_occurs_prepend(head: Seq<char>, text: Seq<char>, needle: Seq<char>, at: int)
    requires
        0 <= at,
    ensures
        occurs_at(head + text, needle, at + head.len()) == occurs_at(text, needle, at),
{
    if at + needle.len() <= text.len() {
        assert((head + text).subrange(at + head.len(), at + head.len() + needle.len())
            =~= text.subrange(at, at + needle.len()));
    }
}

pub(crate) proof fn lemma_anchored_skip(text: Seq<char>, ids: Seq<Seq<char>>, from: int, d: int, at: int)
    requires
        0 <= d <= text.len(),
        0 <= at,
    ensures
        anchored_at(text.skip(d), ids, from, at) == anchored_at(text, ids, from, at + d),
{
    if anchored_at(text.skip(d), ids, from, at) {
        let k = choose|k: int|
            from <= k < ids.len() && occurs_at(
                text.skip(d),
                spec_placeholder(#[trigger] ids[k]),
                at,
            );
        lemma_occurs_skip(text, spec_placeholder(ids[k]), d, at);
    }
    if anchored_at(text, ids, from, at + d) {
        let k = choose|k: int|
            from <= k < ids.len() && occurs_at(text, spec_placeholder(#[trigger] ids[k]), at + d);
        lemma_occurs_skip(text, spec_placeholder(ids[k]), d, at);
    }
}

proof fn lemma_anchored_prepend(
    head: Seq<char>,
    text: Seq<char>,
    ids: Seq<Seq<char>>,
    from: int,
    at: int,
)
    requires
        0 <= at,
    ensures
        anchored_at(head + text, ids, from, at + head.len()) == anchored_at(text, ids, from, at),
{
    if anchored_at(head + text, ids, from, at + head.len()) {
        let k = choose|k: int|
            from <= k < ids.len() && occurs_at(
                head + text,
                spec_placeholder(#[trigger] ids[k]),
                at + head.len(),
            );
        lemma_occurs_prepend(head, text, spec_placeholder(ids[k]), at);
    }
    if anchored_at(text, ids, from, at) {
        let k = choose|k: int|
            from <= k < ids.len() && occurs_at(text, spec_placeholder(#[trigger] ids[k]), at);
        lemma_occurs_prepend(head, text, spec_placeholder(ids[k]), at);
    }
}

/// Where a placeholder stands, an opening stands.
pub(crate) proof fn lemma_occurrence_opens(text: Seq<char>, id: Seq<char>, at: int)
    requires
        occurs_at(text, spec_placeholder(id), at),
    ensures
        opens_at(text, at),
{
    lemma_placeholder_shape(id);
}

proof fn lemma_anchored_opens(text: Seq<char>, ids: Seq<Seq<char>>, from: int, at: int)
    requires
        anchored_at(text, ids, from, at),
    ensures
        opens_at(text, at),
{
    let k = choose|k: int|
        from <= k < ids.len() && occurs_at(text, spec_placeholder(#[trigger] ids[k]), at);
    lemma_occurrence_opens(text, ids[k], at);
}

proof fn lemma_loose_skip(text: Seq<char>, ids: Seq<Seq<char>>, from: int, d: int, at: int)
    requires
        0 <= d <= text.len(),
        0 <= at,
    ensures
        loose_at(text.skip(d), ids, from, at) == loose_at(text, ids, from, at + d),
{
    lemma_anchored_skip(text, ids, from, d, at + 1);
    lemma_anchored_skip(text, ids, from, d, at + 2);
}

proof fn lemma_loose_prepend(
    head: Seq<char>,
    text: Seq<char>,
    ids: Seq<Seq<char>>,
    from: int,
    at: int,
)
    requires
        0 <= at,
    ensures
        loose_at(head + text, ids, from, at + head.len()) == loose_at(text, ids, from, at),
{
    lemma_anchored_prepend(head, text, ids, from, at + 1);
    lemma_anchored_prepend(head, text, ids, from, at + 2);
}

pub(crate) proof fn lemma_disciplined_skip(text: Seq<char>, ids: Seq<Seq<char>>, from: int, d: int)
    requires
        0 <= d <= text.len(),
        disciplined(text, ids, from),
    ensures
        disciplined(text.skip(d), ids, from),
{
    let rest = text.skip(d);
    assert forall|at: int| 0 <= at < rest.len() && #[trigger] rest[at] == '$' implies anchored_at(
        rest,
        ids,
        from,
        at,
    ) || loose_at(rest, ids, from, at) by {
        lemma_anchored_skip(text, ids, from, d, at);
        lemma_loose_skip(text, ids, from, d, at);
    }
}

/// What is disciplined stays so behind a text without `$`.
proof fn lemma_disciplined_prepend(head: Seq<char>, text: Seq<char>, ids: Seq<Seq<char>>, from: int)
    requires
        dollar_free(head),
        disciplined(text, ids, from),
    ensures
        disciplined(head + text, ids, from),
{
    let whole = head + text;
    assert forall|at: int|
        0 <= at < whole.len() && #[trigger] whole[at] == '$' implies anchored_at(
        whole,
        ids,
        from,
        at,
    ) || loose_at(whole, ids, from, at) by {
        lemma_anchored_prepend(head, text, ids, from, at - head.len());
        lemma_loose_prepend(head, text, ids, from, at - head.len());
    }
}

/// The placeholders of fewer ids anchor less, and leave more loose.
proof fn lemma_anchored_later(text: Seq<char>, ids: Seq<Seq<char>>, from: int, at: int)
    requires
        anchored_at(text, ids, from + 1, at),
    ensures
        anchored_at(text, ids, from, at),
{
    let k = choose|k: int|
        from + 1 <= k < ids.len() && occurs_at(text, spec_placeholder(#[trigger] ids[k]), at);
}

proof fn lemma_loose_later(text: Seq<char>, ids: Seq<Seq<char>>, from: int, at: int)
    requires
        loose_at(text, ids, from, at),
    ensures
        loose_at(text, ids, from + 1, at),
{
    if anchored_at(text, ids, from + 1, at + 1) {
        lemma_anchored_later(text, ids, from, at + 1);
    }
    if anchored_at(text, ids, from + 1, at + 2) {
        lemma_anchored_later(text, ids, from, at + 2);
    }
}

/// A beginning without `$` is kept when the placeholder of an id is
/// replaced.
proof fn lemma_replace_all_keeps_beginning(
    text: Seq<char>,
    pattern: Seq<char>,
    replacement: Seq<char>,
    beginning: Seq<char>,
)
    requires
        pattern.len() > 0,
        pattern[0] == '$',
        dollar_free(beginning),
        occurs_at(text, beginning, 0),
    ensures
        occurs_at(spec_replace_all(text, pattern, replacement), beginning, 0),
    decreases beginning.len(),
{
    let out = spec_replace_all(text, pattern, replacement);
    if beginning.len() == 0 {
        assert(out.subrange(0, 0) =~= beginning);
    } else {
        assert(text[0] == beginning[0]);
        lemma_replace_all_head(text, pattern, replacement);
        let rest = text.skip(1);
        let shorter = beginning.skip(1);
        assert(rest.subrange(0, shorter.len() as int) =~= text.subrange(
            0,
            beginning.len() as int,
        ).skip(1));
        lemma_replace_all_keeps_beginning(rest, pattern, replacement, shorter);
        let replaced = spec_replace_all(rest, pattern, replacement);
        assert(out.subrange(0, beginning.len() as int) =~= seq![text[0]] + replaced.subrange(
            0,
            shorter.len() as int,
        ));
        assert(seq![beginning[0]] + shorter =~= beginning);
    }
}

/// `text` with the placeholder of `ids[i]` replaced by `value`.
spec fn replaced(text: Seq<char>, ids: Seq<Seq<char>>, i: int, value: Seq<char>) -> Seq<char> {
    spec_replace_all(text, spec_placeholder(ids[i]), value)
}

/// What a replacement keeps of the first character of a text: nothing comes
/// of nothing, a character other than `$` stays, and a `$` that begins no
/// placeholder stays without becoming an opening.
spec fn head_kept(text: Seq<char>, out: Seq<char>, ids: Seq<Seq<char>>, i: int) -> bool {
    &&& text.len() == 0 ==> out.len() == 0
    &&& text.len() > 0 && text[0] != '$' ==> out.len() > 0 && out[0] == text[0]
    &&& text.len() > 0 && text[0] == '$' && !anchored_at(text, ids, i, 0) ==> out.len() > 0
        && out[0] == '$' && !opens_at(out, 0)
}

/// A loose `$` at the head of a text is loose after the replacement, given
/// what the replacement keeps of the heads of the two texts behind it.
proof fn lemma_loose_head_stays(text: Seq<char>, ids: Seq<Seq<char>>, i: int, value: Seq<char>)
    requires
        0 <= i < ids.len(),
        dollar_free(ids[i]),
        text.len() > 0,
        text[0] == '$',
        loose_at(text, ids, i, 0),
        head_kept(text.skip(1), replaced(text.skip(1), ids, i, value), ids, i),
        text.len() >= 2 ==> head_kept(
            text.skip(2),
            replaced(text.skip(2), ids, i, value),
            ids,
            i,
        ),
    ensures
        loose_at(seq!['$'] + replaced(text.skip(1), ids, i, value), ids, i + 1, 0),
{
    let pattern = spec_placeholder(ids[i]);
    lemma_placeholder_shape(ids[i]);
    let head = seq!['$'];
    let rest = text.skip(1);
    let r1 = replaced(rest, ids, i, value);
    let out = head + r1;
    lemma_anchored_skip(text, ids, i, 1, 0);
    lemma_anchored_prepend(head, r1, ids, i + 1, 0);
    lemma_anchored_prepend(head, r1, ids, i + 1, 1);
    if anchored_at(r1, ids, i + 1, 0) {
        lemma_anchored_opens(r1, ids, i + 1, 0);
    }
    if anchored_at(r1, ids, i + 1, 1) {
        lemma_anchored_opens(r1, ids, i + 1, 1);
    }
    if rest.len() > 0 {
        if rest[0] == '{' {
            let rest2 = text.skip(2);
            assert(rest.skip(1) =~= rest2);
            let r2 = replaced(rest2, ids, i, value);
            lemma_replace_all_head(rest, pattern, value);
            lemma_anchored_skip(text, ids, i, 2, 0);
        }
    }
}

/// Replacing the placeholder of `ids[i]` by a text without `$` leaves a
/// disciplined text disciplined, with regard to the ids behind `i`.
proof fn lemma_replace_keeps_discipline(
    text: Seq<char>,
    ids: Seq<Seq<char>>,
    i: int,
    value: Seq<char>,
)
    requires
        0 <= i < ids.len(),
        forall|k: int| 0 <= k < ids.len() ==> dollar_free(#[trigger] ids[k]),
        dollar_free(value),
        disciplined(text, ids, i),
    ensures
        disciplined(replaced(text, ids, i, value), ids, i + 1),
        head_kept(text, replaced(text, ids, i, value), ids, i),
    decreases text.len(),
{
    let pattern = spec_placeholder(ids[i]);
    let out = replaced(text, ids, i, value);
    lemma_placeholder_shape(ids[i]);
    if text.len() < pattern.len() {
        assert forall|at: int| 0 <= at < out.len() && #[trigger] out[at] == '$' implies anchored_at(
            out,
            ids,
            i + 1,
            at,
        ) || loose_at(out, ids, i + 1, at) by {
            if anchored_at(text, ids, i, at) {
                // The text is too short to hold the placeholder of `ids[i]`.
                let k = choose|k: int|
                    i <= k < ids.len() && occurs_at(text, spec_placeholder(#[trigger] ids[k]), at);
                assert(k != i);
            } else {
                lemma_loose_later(text, ids, i, at);
            }
        }
    } else if text.subrange(0, pattern.len() as int) == pattern {
        let tail = text.skip(pattern.len() as int);
        lemma_disciplined_skip(text, ids, i, pattern.len() as int);
        lemma_replace_keeps_discipline(tail, ids, i, value);
        lemma_disciplined_prepend(value, replaced(tail, ids, i, value), ids, i + 1);
    } else {
        let rest = text.skip(1);
        let head = seq![text[0]];
        lemma_disciplined_skip(text, ids, i, 1);
        lemma_replace_keeps_discipline(rest, ids, i, value);
        let r1 = replaced(rest, ids, i, value);
        if text[0] == '$' {
            if anchored_at(text, ids, i, 0) {
                let k = choose|k: int|
                    i <= k < ids.len() && occurs_at(text, spec_placeholder(#[trigger] ids[k]), 0);
                let other = spec_placeholder(ids[k]);
                lemma_placeholder_shape(ids[k]);
                assert(rest.subrange(0, other.len() - 1) =~= text.subrange(
                    0,
                    other.len() as int,
                ).skip(1));
                lemma_replace_all_keeps_beginning(rest, pattern, value, other.skip(1));
                assert(out.subrange(0, other.len() as int) =~= head + r1.subrange(
                    0,
                    other.len() - 1,
                ));
                assert(head + other.skip(1) =~= other);
            } else {
                if text.len() >= 2 {
                    lemma_disciplined_skip(text, ids, i, 2);
                    lemma_replace_keeps_discipline(text.skip(2), ids, i, value);
                }
                lemma_loose_head_stays(text, ids, i, value);
            }
        }
        assert forall|at: int| 0 <= at < out.len() && #[trigger] out[at] == '$' implies anchored_at(
            out,
            ids,
            i + 1,
            at,
        ) || loose_at(out, ids, i + 1, at) by {
            if at >= 1 {
                lemma_anchored_prepend(head, r1, ids, i + 1, at - 1);
                lemma_loose_prepend(head, r1, ids, i + 1, at - 1);
            }
        }
    }
}

/// Rendering with the first `upto` values leaves the text disciplined with
/// regard to the ids of the values behind them.
proof fn lemma_render_keeps_discipline(
    template: Seq<char>,
    resolved: Seq<ResolvedValueView>,
    upto: int,
)
    requires
        0 <= upto <= resolved.len(),
        forall|k: int| 0 <= k < resolved.len() ==> dollar_free((#[trigger] resolved[k]).id),
        forall|k: int|
            0 <= k < resolved.len() ==> dollar_free(
                spec_canonical_text((#[trigger] resolved[k]).value),
            ),
        disciplined(template, resolved_ids(resolved), 0),
    ensures
        disciplined(spec_render(template, resolved.take(upto)), resolved_ids(resolved), upto),
    decreases upto,
{
    let ids = resolved_ids(resolved);
    if upto > 0 {
        lemma_render_keeps_discipline(template, resolved, upto - 1);
        assert(resolved.take(upto).drop_last() =~= resolved.take(upto - 1));
        assert forall|k: int| 0 <= k < ids.len() implies dollar_free(#[trigger] ids[k]) by {
            assert(ids[k] == resolved[k].id);
        }
        lemma_replace_keeps_discipline(
            spec_render(template, resolved.take(upto - 1)),
            ids,
            upto - 1,
            spec_canonical_text(resolved[upto - 1].value),
        );
    }
}

/// The canonical text of a number or of a boolean holds no `$`.
pub proof fn lemma_canonical_text_dollar_free(value: TypedValueView)
    requires
        !(value is String),
    ensures
        dollar_free(spec_canonical_text(value)),
{
    match value {
        TypedValueView::String(_) => {},
        TypedValueView::Integer(n) => {
            // A digit is not a `$`, and neither is the sign.
            if n < 0 {
                lemma_decimal_digits_value((-n) as nat);
            } else {
                lemma_decimal_digits_value(n as nat);
            }
        },
        TypedValueView::Boolean(b) => {
            reveal_strlit("true");
            reveal_strlit("false");
        },
    }
}

/// Rendering resolves every placeholder, where `$` is kept for them.
///
/// Let no id and no canonical text of a value hold a `$`, and let every `$`
/// of the template either begin the placeholder of one of the values or be
/// loose. Then the rendering holds no `${{` at all, and so the placeholder
/// of no id, whether it has a value or not.
pub proof fn lemma_render_leaves_no_placeholder(
    template: Seq<char>,
    resolved: Seq<ResolvedValueView>,
)
    requires
        forall|k: int| 0 <= k < resolved.len() ==> dollar_free((#[trigger] resolved[k]).id),
        forall|k: int|
            0 <= k < resolved.len() ==> dollar_free(
                spec_canonical_text((#[trigger] resolved[k]).value),
            ),
        disciplined(template, resolved_ids(resolved), 0),
    ensures
        forall|at: int| !opens_at(spec_render(template, resolved), at),
        forall|id: Seq<char>| !occurs_in(spec_render(template, resolved), spec_placeholder(id)),
{
    let output = spec_render(template, resolved);
    let ids = resolved_ids(resolved);
    lemma_render_keeps_discipline(template, resolved, resolved.len() as int);
    assert(resolved.take(resolved.len() as int) =~= resolved);
    assert forall|at: int| !opens_at(output, at) by {
        // No id is left to anchor a `$`, so every `$` is loose.
        if opens_at(output, at) {
            assert(!anchored_at(output, ids, resolved.len() as int, at));
        }
    }
    assert forall|id: Seq<char>| !occurs_in(output, spec_placeholder(id)) by {
        if occurs_in(output, spec_placeholder(id)) {
            let at = choose|at: int| occurs_at(output, spec_placeholder(id), at);
            lemma_occurrence_opens(output, id, at);
        }
    }
}

/// `text` is not empty and holds neither `$` nor `{`.
pub open spec fn plain(text: Seq<char>) -> bool {
    &&& text.len() > 0
    &&& forall|i: int| 0 <= i < text.len() ==> text[i] != '$' && text[i] != '{'
}

/// Every opening `${{` of `text` begins the placeholder of one of the ids
/// from position `from` on.
pub open spec fn openings_anchored(text: Seq<char>, ids: Seq<Seq<char>>, from: int) -> bool {
    forall|at: int| #[trigger] opens_at(text, at) ==> anchored_at(text, ids, from, at)
}

/// The canonical text of a number or of a boolean is plain.
pub proof fn lemma_canonical_text_plain(value: TypedValueView)
    requires
        !(value is String),
    ensures
        plain(spec_canonical_text(value)),
{
    match value {
        TypedValueView::String(_) => {},
        TypedValueView::Integer(n) => {
            // A digit is neither a `$` nor a `{`, and neither is the sign.
            if n < 0 {
                lemma_decimal_digits_value((-n) as nat);
            } else {
                lemma_decimal_digits_value(n as nat);
            }
        },
        TypedValueView::Boolean(b) => {
            reveal_strlit("true");
            reveal_strlit("false");
        },
    }
}

/// Where a text begins with `{` after a placeholder was replaced by a plain
/// value, it began with `{` before, and what stands behind the `{` was
/// replaced on its own.
proof fn lemma_brace_head_was_there(text: Seq<char>, pattern: Seq<char>, value: Seq<char>)
    requires
        pattern.len() > 0,
        pattern[0] == '$',
        plain(value),
        spec_replace_all(text, pattern, value).len() > 0,
        spec_replace_all(text, pattern, value)[0] == '{',
    ensures
        text.len() > 0,
        text[0] == '{',
        spec_replace_all(text, pattern, value) == seq!['{'] + spec_replace_all(
            text.skip(1),
            pattern,
            value,
        ),
{
    if text.len() >= pattern.len() && text.subrange(0, pattern.len() as int) == pattern {
        // The replaced text would begin with the value, which holds no `{`.
        assert(spec_replace_all(text, pattern, value)[0] == value[0]);
    } else {
        assert(!occurs_at(text, pattern, 0));
        lemma_replace_all_step(text, pattern, value);
    }
}

proof fn lemma_opens_prepend(head: Seq<char>, text: Seq<char>, at: int)
    requires
        0 <= at,
    ensures
        opens_at(head + text, at + head.len()) == opens_at(text, at),
{
    if at + 2 < text.len() {
        assert((head + text)[at + head.len()] == text[at]);
        assert((head + text)[at + head.len() + 1] == text[at + 1]);
        assert((head + text)[at + head.len() + 2] == text[at + 2]);
    }
}

proof fn lemma_openings_anchored_skip(text: Seq<char>, ids: Seq<Seq<char>>, from: int, d: int)
    requires
        0 <= d <= text.len(),
        openings_anchored(text, ids, from),
    ensures
        openings_anchored(text.skip(d), ids, from),
{
    let rest = text.skip(d);
    assert forall|at: int| #[trigger] opens_at(rest, at) implies anchored_at(
        rest,
        ids,
        from,
        at,
    ) by {
        assert(opens_at(text, at + d));
        lemma_anchored_skip(text, ids, from, d, at);
    }
}

/// Replacing the placeholder of `ids[i]` by a plain value leaves every
/// opening anchored, with regard to the ids behind `i`: the value fills the
/// place of the placeholder, so that nothing around it comes together, and
/// brings no opening of its own.
proof fn lemma_replace_keeps_openings_anchored(
    text: Seq<char>,
    ids: Seq<Seq<char>>,
    i: int,
    value: Seq<char>,
)
    requires
        0 <= i < ids.len(),
        forall|k: int| 0 <= k < ids.len() ==> dollar_free(#[trigger] ids[k]),
        plain(value),
        openings_anchored(text, ids, i),
    ensures
        openings_anchored(replaced(text, ids, i, value), ids, i + 1),
    decreases text.len(),
{
    let pattern = spec_placeholder(ids[i]);
    let out = replaced(text, ids, i, value);
    lemma_placeholder_shape(ids[i]);
    if text.len() < pattern.len() {
        assert forall|at: int| #[trigger] opens_at(out, at) implies anchored_at(
            out,
            ids,
            i + 1,
            at,
        ) by {
            // The text is too short to hold the placeholder of `ids[i]`.
            let k = choose|k: int|
                i <= k < ids.len() && occurs_at(text, spec_placeholder(#[trigger] ids[k]), at);
            assert(k != i);
        }
    } else if text.subrange(0, pattern.len() as int) == pattern {
        let tail = text.skip(pattern.len() as int);
        lemma_openings_anchored_skip(text, ids, i, pattern.len() as int);
        lemma_replace_keeps_openings_anchored(tail, ids, i, value);
        let after = replaced(tail, ids, i, value);
        assert forall|at: int| #[trigger] opens_at(out, at) implies anchored_at(
            out,
            ids,
            i + 1,
            at,
        ) by {
            // An opening begins with `$`, so it begins behind the value.
            if at < value.len() {
                assert(out[at] == value[at]);
            }
            lemma_opens_prepend(value, after, at - value.len());
            assert(opens_at(after, at - value.len()));
            lemma_anchored_prepend(value, after, ids, i + 1, at - value.len());
        }
    } else {
        let rest = text.skip(1);
        let head = seq![text[0]];
        lemma_openings_anchored_skip(text, ids, i, 1);
        lemma_replace_keeps_openings_anchored(rest, ids, i, value);
        let after = replaced(rest, ids, i, value);
        assert(!occurs_at(text, pattern, 0));
        lemma_replace_all_step(text, pattern, value);
        assert(out == head + after);
        assert forall|at: int| #[trigger] opens_at(out, at) implies anchored_at(
            out,
            ids,
            i + 1,
            at,
        ) by {
            if at >= 1 {
                lemma_opens_prepend(head, after, at - 1);
                assert(opens_at(after, at - 1));
                lemma_anchored_prepend(head, after, ids, i + 1, at - 1);
            } else {
                // The two `{` behind the `$` stood there before.
                assert(out[1] == after[0]);
                assert(out[2] == after[1]);
                lemma_brace_head_was_there(rest, pattern, value);
                let rest2 = rest.skip(1);
                let after2 = replaced(rest2, ids, i, value);
                assert(after[1] == after2[0]);
                lemma_brace_head_was_there(rest2, pattern, value);
                assert(text[1] == rest[0]);
                assert(text[2] == rest2[0]);
                assert(opens_at(text, 0));
                // So a placeholder stands there, and not that of `ids[i]`.
                let k = choose|k: int|
                    i <= k < ids.len() && occurs_at(text, spec_placeholder(#[trigger] ids[k]), 0);
                let other = spec_placeholder(ids[k]);
                lemma_placeholder_shape(ids[k]);
                assert(k != i);
                assert(rest.subrange(0, other.len() - 1) =~= text.subrange(
                    0,
                    other.len() as int,
                ).skip(1));
                lemma_replace_all_keeps_beginning(rest, pattern, value, other.skip(1));
                assert(out.subrange(0, other.len() as int) =~= head + after.subrange(
                    0,
                    other.len() - 1,
                ));
                assert(head + other.skip(1) =~= other);
                assert(occurs_at(out, spec_placeholder(ids[k]), 0));
            }
        }
    }
}

/// Rendering with the first `upto` values leaves every opening anchored by
/// the ids of the values behind them.
proof fn lemma_render_keeps_openings_anchored(
    template: Seq<char>,
    resolved: Seq<ResolvedValueView>,
    upto: int,
)
    requires
        0 <= upto <= resolved.len(),
        forall|k: int| 0 <= k < resolved.len() ==> dollar_free((#[trigger] resolved[k]).id),
        forall|k: int|
            0 <= k < resolved.len() ==> plain(spec_canonical_text((#[trigger] resolved[k]).value)),
        openings_anchored(template, resolved_ids(resolved), 0),
    ensures
        openings_anchored(
            spec_render(template, resolved.take(upto)),
            resolved_ids(resolved),
            upto,
        ),
    decreases upto,
{
    let ids = resolved_ids(resolved);
    if upto == 0 {
        assert(resolved.take(0) =~= Seq::empty());
    } else {
        lemma_render_keeps_openings_anchored(template, resolved, upto - 1);
        assert(resolved.take(upto).drop_last() =~= resolved.take(upto - 1));
        assert forall|k: int| 0 <= k < ids.len() implies dollar_free(#[trigger] ids[k]) by {
            assert(ids[k] == resolved[k].id);
        }
        lemma_replace_keeps_openings_anchored(
            spec_render(template, resolved.take(upto - 1)),
            ids,
            upto - 1,
            spec_canonical_text(resolved[upto - 1].value),
        );
    }
}

/// Rendering resolves every placeholder, where the values are plain.
///
/// Let every opening `${{` of the template begin the placeholder of one of
/// the values, let no id hold a `$`, and let every string among the values
/// be plain: not empty, and without `$` and `{`. Then the rendering holds no
/// `${{` at all, and so the placeholder of no id. A `$` of the template that
/// begins no placeholder may stand anywhere, also right before one.
pub proof fn lemma_render_of_plain_values_leaves_no_placeholder(
    template: Seq<char>,
    resolved: Seq<ResolvedValueView>,
)
    requires
        forall|k: int| 0 <= k < resolved.len() ==> dollar_free((#[trigger] resolved[k]).id),
        forall|k: int|
            0 <= k < resolved.len() && (#[trigger] resolved[k]).value is String ==> plain(
                spec_canonical_text(resolved[k].value),
            ),
        openings_anchored(template, resolved_ids(resolved), 0),
    ensures
        forall|at: int| !opens_at(spec_render(template, resolved), at),
        forall|id: Seq<char>| !occurs_in(spec_render(template, resolved), spec_placeholder(id)),
{
    let output = spec_render(template, resolved);
    let ids = resolved_ids(resolved);
    assert forall|k: int| 0 <= k < resolved.len() implies plain(
        spec_canonical_text((#[trigger] resolved[k]).value),
    ) by {
        if !(resolved[k].value is String) {
            lemma_canonical_text_plain(resolved[k].value);
        }
    }
    lemma_render_keeps_openings_anchored(template, resolved, resolved.len() as int);
    assert(resolved.take(resolved.len() as int) =~= resolved);
    assert forall|at: int| !opens_at(output, at) by {
        // No id is left to anchor an opening.
        if opens_at(output, at) {
            assert(anchored_at(output, ids, resolved.len() as int, at));
        }
    }
    assert forall|id: Seq<char>| !occurs_in(output, spec_placeholder(id)) by {
        if occurs_in(output, spec_placeholder(id)) {
            let at = choose|at: int| occurs_at(output, spec_placeholder(id), at);
            lemma_occurrence_opens(output, id, at);
        }
    }
}

} // verus!
