//! Rendering as one pass over the template, and why the order of the values
//! does not matter where the template keeps to the discipline.

use crate::coerce::spec_canonical_text;
use crate::collector::ResolvedValueView;
use crate::discipline::{
    anchored_at, disciplined, dollar_free, lemma_anchored_skip, lemma_disciplined_skip,
    lemma_occurrence_opens, lemma_placeholder_shape, loose_at, opens_at,
};
use crate::render::{resolved_ids, spec_placeholder, spec_render};
use crate::text::{lemma_replace_all_head, lemma_replace_all_step, occurs_at, spec_replace_all};
use vstd::prelude::*;

verus! {

/// The canonical texts of a sequence of values.
pub open spec fn resolved_texts(resolved: Seq<ResolvedValueView>) -> Seq<Seq<char>> {
    resolved.map_values(|value: ResolvedValueView| spec_canonical_text(value.value))
}

/// No placeholder of `ids` is the beginning of another; in particular no id
/// occurs twice.
pub open spec fn prefix_free(ids: Seq<Seq<char>>) -> bool {
    forall|j: int, k: int|
        0 <= j < ids.len() && 0 <= k < ids.len() && j != k ==> !occurs_at(
            spec_placeholder(#[trigger] ids[k]),
            spec_placeholder(#[trigger] ids[j]),
            0,
        )
}

/// The placeholder of `ids[k]`, one of the first `upto` ids, stands at the
/// head of `text`.
pub open spec fn heads(text: Seq<char>, ids: Seq<Seq<char>>, upto: int, k: int) -> bool {
    0 <= k < upto && k < ids.len() && occurs_at(text, spec_placeholder(ids[k]), 0)
}

/// The position of one of the first `upto` ids whose placeholder stands at
/// the head of `text`, if there is one.
pub open spec fn head_anchor(text: Seq<char>, ids: Seq<Seq<char>>, upto: int) -> Option<int> {
    if exists|k: int| heads(text, ids, upto, k) {
        Some(choose|k: int| heads(text, ids, upto, k))
    } else {
        None
    }
}

/// `text` read once from the left: where the placeholder of one of the first
/// `upto` ids stands, the value of that id is put and reading goes on behind
/// the placeholder; every other character is kept.
pub open spec fn spec_substitute_first(
    text: Seq<char>,
    ids: Seq<Seq<char>>,
    values: Seq<Seq<char>>,
    upto: int,
) -> Seq<char>
    decreases text.len(),
{
    if text.len() == 0 {
        text
    } else {
        match head_anchor(text, ids, upto) {
            Some(k) => values[k] + spec_substitute_first(
                text.skip(spec_placeholder(ids[k]).len() as int),
                ids,
                values,
                upto,
            ),
            None => seq![text[0]] + spec_substitute_first(text.skip(1), ids, values, upto),
        }
    }
}

/// The template read once from the left, with the canonical text of a value
/// put wherever the placeholder of its id stands.
pub open spec fn spec_substitute(template: Seq<char>, resolved: Seq<ResolvedValueView>) -> Seq<
    char,
> {
    spec_substitute_first(
        template,
        resolved_ids(resolved),
        resolved_texts(resolved),
        resolved.len() as int,
    )
}

/// Where the placeholders of two ids stand at the head of one text, one is
/// the beginning of the other, so the ids are one.
proof fn lemma_anchor_is_one(text: Seq<char>, ids: Seq<Seq<char>>, j: int, k: int)
    requires
        prefix_free(ids),
        0 <= j < ids.len(),
        0 <= k < ids.len(),
        occurs_at(text, spec_placeholder(ids[j]), 0),
        occurs_at(text, spec_placeholder(ids[k]), 0),
    ensures
        j == k,
{
    let first = spec_placeholder(ids[j]);
    let second = spec_placeholder(ids[k]);
    if j != k {
        if first.len() <= second.len() {
            assert(second.subrange(0, first.len() as int) =~= text.subrange(
                0,
                second.len() as int,
            ).subrange(0, first.len() as int));
            assert(text.subrange(0, second.len() as int).subrange(0, first.len() as int)
                =~= text.subrange(0, first.len() as int));
            assert(occurs_at(second, first, 0));
        } else {
            assert(first.subrange(0, second.len() as int) =~= text.subrange(
                0,
                first.len() as int,
            ).subrange(0, second.len() as int));
            assert(text.subrange(0, first.len() as int).subrange(0, second.len() as int)
                =~= text.subrange(0, second.len() as int));
            assert(occurs_at(first, second, 0));
        }
    }
}

/// The id whose placeholder stands at the head of a text is the one that is
/// taken there.
proof fn lemma_head_anchor_is(text: Seq<char>, ids: Seq<Seq<char>>, upto: int, k: int)
    requires
        prefix_free(ids),
        heads(text, ids, upto, k),
    ensures
        head_anchor(text, ids, upto) == Some(k),
{
    let chosen = choose|k: int| heads(text, ids, upto, k);
    lemma_anchor_is_one(text, ids, chosen, k);
}

/// A beginning without `$` passes through a replacement of a placeholder.
proof fn lemma_replace_all_passes(
    beginning: Seq<char>,
    rest: Seq<char>,
    pattern: Seq<char>,
    replacement: Seq<char>,
)
    requires
        pattern.len() > 0,
        pattern[0] == '$',
        dollar_free(beginning),
    ensures
        spec_replace_all(beginning + rest, pattern, replacement) == beginning + spec_replace_all(
            rest,
            pattern,
            replacement,
        ),
    decreases beginning.len(),
{
    let whole = beginning + rest;
    if beginning.len() == 0 {
        assert(whole =~= rest);
        assert(beginning + spec_replace_all(rest, pattern, replacement) =~= spec_replace_all(
            rest,
            pattern,
            replacement,
        ));
    } else {
        lemma_replace_all_head(whole, pattern, replacement);
        assert(whole.skip(1) =~= beginning.skip(1) + rest);
        lemma_replace_all_passes(beginning.skip(1), rest, pattern, replacement);
        assert(seq![whole[0]] + (beginning.skip(1) + spec_replace_all(rest, pattern, replacement))
            =~= beginning + spec_replace_all(rest, pattern, replacement));
    }
}

/// No placeholder stands at the head of a text that does not begin with `$`.
proof fn lemma_no_anchor_without_dollar(text: Seq<char>, ids: Seq<Seq<char>>, upto: int)
    requires
        text.len() > 0,
        text[0] != '$',
    ensures
        head_anchor(text, ids, upto) is None,
{
    if exists|k: int| heads(text, ids, upto, k) {
        let k = choose|k: int| heads(text, ids, upto, k);
        lemma_occurrence_opens(text, ids[k], 0);
    }
}

/// A beginning without `$` passes through a substitution.
proof fn lemma_substitute_passes(
    beginning: Seq<char>,
    rest: Seq<char>,
    ids: Seq<Seq<char>>,
    values: Seq<Seq<char>>,
    upto: int,
)
    requires
        dollar_free(beginning),
    ensures
        spec_substitute_first(beginning + rest, ids, values, upto) == beginning
            + spec_substitute_first(rest, ids, values, upto),
    decreases beginning.len(),
{
    let whole = beginning + rest;
    let after = spec_substitute_first(rest, ids, values, upto);
    if beginning.len() == 0 {
        assert(whole =~= rest);
        assert(beginning + after =~= after);
    } else {
        lemma_no_anchor_without_dollar(whole, ids, upto);
        assert(whole.skip(1) =~= beginning.skip(1) + rest);
        lemma_substitute_passes(beginning.skip(1), rest, ids, values, upto);
        assert(seq![whole[0]] + (beginning.skip(1) + after) =~= beginning + after);
    }
}

/// What a substitution keeps of the head of a text: nothing comes of
/// nothing, and a first character at which no placeholder of any id stands
/// is kept.
proof fn lemma_substitute_head(
    text: Seq<char>,
    ids: Seq<Seq<char>>,
    values: Seq<Seq<char>>,
    upto: int,
)
    ensures
        text.len() == 0 ==> spec_substitute_first(text, ids, values, upto).len() == 0,
        text.len() > 0 && !anchored_at(text, ids, 0, 0) ==> spec_substitute_first(
            text,
            ids,
            values,
            upto,
        ) == seq![text[0]] + spec_substitute_first(text.skip(1), ids, values, upto),
{
    if text.len() > 0 && !anchored_at(text, ids, 0, 0) {
        if exists|k: int| heads(text, ids, upto, k) {
            let k = choose|k: int| heads(text, ids, upto, k);
            assert(0 <= k < ids.len() && occurs_at(text, spec_placeholder(ids[k]), 0));
        }
    }
}

/// A loose `$` at the head of a text is no opening after a substitution of
/// what stands behind it.
proof fn lemma_loose_head_never_opens(
    text: Seq<char>,
    ids: Seq<Seq<char>>,
    values: Seq<Seq<char>>,
    upto: int,
)
    requires
        text.len() > 0,
        text[0] == '$',
        loose_at(text, ids, 0, 0),
    ensures
        !opens_at(seq!['$'] + spec_substitute_first(text.skip(1), ids, values, upto), 0),
{
    let rest = text.skip(1);
    let after = spec_substitute_first(rest, ids, values, upto);
    let whole = seq!['$'] + after;
    lemma_anchored_skip(text, ids, 0, 1, 0);
    lemma_substitute_head(rest, ids, values, upto);
    if rest.len() > 0 {
        assert(whole[1] == after[0]);
        assert(after[0] == rest[0]);
        if rest[0] == '{' {
            let rest2 = text.skip(2);
            assert(rest.skip(1) =~= rest2);
            lemma_anchored_skip(text, ids, 0, 2, 0);
            lemma_substitute_head(rest2, ids, values, upto);
            let after2 = spec_substitute_first(rest2, ids, values, upto);
            assert(after == seq![rest[0]] + after2);
            if rest2.len() > 0 {
                assert(whole[2] == after2[0]);
                assert(after2[0] == rest2[0]);
                assert(rest2[0] == text[2]);
            }
        }
    }
}

/// Replacing the placeholder of the next id in a text in which the first
/// `m` ids are substituted substitutes the first `m + 1` ids.
proof fn lemma_replace_substitutes_next(
    text: Seq<char>,
    ids: Seq<Seq<char>>,
    values: Seq<Seq<char>>,
    m: int,
)
    requires
        0 <= m < ids.len(),
        ids.len() == values.len(),
        prefix_free(ids),
        forall|k: int| 0 <= k < ids.len() ==> dollar_free(#[trigger] ids[k]),
        forall|k: int| 0 <= k < values.len() ==> dollar_free(#[trigger] values[k]),
        disciplined(text, ids, 0),
    ensures
        spec_replace_all(
            spec_substitute_first(text, ids, values, m),
            spec_placeholder(ids[m]),
            values[m],
        ) == spec_substitute_first(text, ids, values, m + 1),
    decreases text.len(),
{
    let pattern = spec_placeholder(ids[m]);
    let value = values[m];
    let before = spec_substitute_first(text, ids, values, m);
    let after = spec_substitute_first(text, ids, values, m + 1);
    lemma_placeholder_shape(ids[m]);
    if text.len() == 0 {
    } else if anchored_at(text, ids, 0, 0) {
        let k = choose|k: int|
            0 <= k < ids.len() && occurs_at(text, spec_placeholder(#[trigger] ids[k]), 0);
        let found = spec_placeholder(ids[k]);
        lemma_placeholder_shape(ids[k]);
        let tail = text.skip(found.len() as int);
        lemma_disciplined_skip(text, ids, 0, found.len() as int);
        lemma_replace_substitutes_next(tail, ids, values, m);
        let tail_before = spec_substitute_first(tail, ids, values, m);
        let tail_after = spec_substitute_first(tail, ids, values, m + 1);
        assert(text =~= found + tail) by {
            assert(text.subrange(0, found.len() as int) + tail =~= text);
        }
        assert(text.skip(1) =~= found.skip(1) + tail);
        assert(seq!['$'] + found.skip(1) =~= found);
        if k < m {
            assert(heads(text, ids, m, k));
            assert(heads(text, ids, m + 1, k));
            lemma_head_anchor_is(text, ids, m, k);
            lemma_head_anchor_is(text, ids, m + 1, k);
            lemma_replace_all_passes(values[k], tail_before, pattern, value);
        } else {
            // Nothing is substituted at the head before `m`: the placeholder
            // that stands there is kept.
            if exists|j: int| heads(text, ids, m, j) {
                let j = choose|j: int| heads(text, ids, m, j);
                lemma_anchor_is_one(text, ids, j, k);
            }
            assert(head_anchor(text, ids, m) is None);
            lemma_substitute_passes(found.skip(1), tail, ids, values, m);
            assert(before =~= found + tail_before);
            if k == m {
                assert(heads(text, ids, m + 1, m));
                lemma_head_anchor_is(text, ids, m + 1, m);
                assert(before.subrange(0, pattern.len() as int) =~= pattern);
                assert(before.skip(pattern.len() as int) =~= tail_before);
            } else {
                let next = m + 1;
                if exists|j: int| heads(text, ids, next, j) {
                    let j = choose|j: int| heads(text, ids, next, j);
                    lemma_anchor_is_one(text, ids, j, k);
                }
                assert(head_anchor(text, ids, next) is None);
                lemma_substitute_passes(found.skip(1), tail, ids, values, m + 1);
                assert(after =~= found + tail_after);
                // The placeholder of `ids[m]` does not stand at the head.
                if occurs_at(before, pattern, 0) {
                    if pattern.len() <= found.len() {
                        assert(found.subrange(0, pattern.len() as int) =~= before.subrange(
                            0,
                            pattern.len() as int,
                        ));
                        assert(occurs_at(found, pattern, 0));
                    } else {
                        assert(pattern.subrange(0, found.len() as int) =~= before.subrange(
                            0,
                            pattern.len() as int,
                        ).subrange(0, found.len() as int));
                        assert(before.subrange(0, pattern.len() as int).subrange(
                            0,
                            found.len() as int,
                        ) =~= found);
                        assert(occurs_at(pattern, found, 0));
                    }
                }
                lemma_replace_all_step(before, pattern, value);
                assert(before.skip(1) =~= found.skip(1) + tail_before);
                lemma_replace_all_passes(found.skip(1), tail_before, pattern, value);
                assert(seq![before[0]] + (found.skip(1) + tail_after) =~= found + tail_after);
            }
        }
    } else {
        let rest = text.skip(1);
        lemma_disciplined_skip(text, ids, 0, 1);
        lemma_replace_substitutes_next(rest, ids, values, m);
        lemma_substitute_head(text, ids, values, m);
        lemma_substitute_head(text, ids, values, m + 1);
        assert(before.skip(1) =~= spec_substitute_first(rest, ids, values, m));
        if text[0] != '$' {
            lemma_replace_all_head(before, pattern, value);
        } else {
            lemma_loose_head_never_opens(text, ids, values, m);
            if occurs_at(before, pattern, 0) {
                lemma_occurrence_opens(before, ids[m], 0);
            }
            lemma_replace_all_step(before, pattern, value);
        }
    }
}

/// With none of the ids substituted a text is as it was.
proof fn lemma_substitute_nothing(text: Seq<char>, ids: Seq<Seq<char>>, values: Seq<Seq<char>>)
    ensures
        spec_substitute_first(text, ids, values, 0) == text,
    decreases text.len(),
{
    if text.len() > 0 {
        lemma_substitute_nothing(text.skip(1), ids, values);
        assert(seq![text[0]] + text.skip(1) =~= text);
    }
}

/// Rendering with the first `m` values substitutes the first `m` ids.
proof fn lemma_render_substitutes_first(
    template: Seq<char>,
    resolved: Seq<ResolvedValueView>,
    m: int,
)
    requires
        0 <= m <= resolved.len(),
        keeps_discipline(template, resolved),
    ensures
        spec_render(template, resolved.take(m)) == spec_substitute_first(
            template,
            resolved_ids(resolved),
            resolved_texts(resolved),
            m,
        ),
    decreases m,
{
    let ids = resolved_ids(resolved);
    let values = resolved_texts(resolved);
    if m == 0 {
        assert(resolved.take(0) =~= Seq::empty());
        lemma_substitute_nothing(template, ids, values);
    } else {
        lemma_render_substitutes_first(template, resolved, m - 1);
        assert(resolved.take(m).drop_last() =~= resolved.take(m - 1));
        assert forall|k: int| 0 <= k < ids.len() implies dollar_free(#[trigger] ids[k]) by {
            assert(ids[k] == resolved[k].id);
        }
        assert forall|k: int| 0 <= k < values.len() implies dollar_free(#[trigger] values[k]) by {
            assert(values[k] == spec_canonical_text(resolved[k].value));
        }
        lemma_replace_substitutes_next(template, ids, values, m - 1);
    }
}

/// What a caller of the renderer has to keep to for the rendering not to
/// depend on the order of the values: no id and no canonical text of a
/// value holds a `$`, no placeholder of a value is the beginning of that of
/// another, and every `$` of the template either begins the placeholder of
/// a value or is loose.
pub open spec fn keeps_discipline(template: Seq<char>, resolved: Seq<ResolvedValueView>) -> bool {
    &&& forall|k: int| 0 <= k < resolved.len() ==> dollar_free((#[trigger] resolved[k]).id)
    &&& forall|k: int|
        0 <= k < resolved.len() ==> dollar_free(
            spec_canonical_text((#[trigger] resolved[k]).value),
        )
    &&& prefix_free(resolved_ids(resolved))
    &&& disciplined(template, resolved_ids(resolved), 0)
}

/// Where the discipline is kept, rendering comes to one pass over the
/// template in which each placeholder of a value gives way to the canonical
/// text of that value.
pub proof fn lemma_render_is_substitution(template: Seq<char>, resolved: Seq<ResolvedValueView>)
    requires
        keeps_discipline(template, resolved),
    ensures
        spec_render(template, resolved) == spec_substitute(template, resolved),
{
    lemma_render_substitutes_first(template, resolved, resolved.len() as int);
    assert(resolved.take(resolved.len() as int) =~= resolved);
}

/// `first` and `second` hold the same values, in whatever order.
pub open spec fn same_values(first: Seq<ResolvedValueView>, second: Seq<ResolvedValueView>) -> bool {
    forall|value: ResolvedValueView| first.contains(value) <==> second.contains(value)
}

/// What the placeholder of a value of `first` anchors, the placeholder of
/// the same value in `second` anchors.
proof fn lemma_anchored_by_same_values(
    text: Seq<char>,
    first: Seq<ResolvedValueView>,
    second: Seq<ResolvedValueView>,
    at: int,
)
    requires
        same_values(first, second),
        anchored_at(text, resolved_ids(first), 0, at),
    ensures
        anchored_at(text, resolved_ids(second), 0, at),
{
    let ids = resolved_ids(first);
    let k = choose|k: int|
        0 <= k < ids.len() && occurs_at(text, spec_placeholder(#[trigger] ids[k]), at);
    assert(first.contains(first[k]));
    let other = choose|other: int| 0 <= other < second.len() && second[other] == first[k];
    assert(resolved_ids(second)[other] == ids[k]);
}

/// One pass over a text gives the same for the same values in another
/// order.
proof fn lemma_substitute_ignores_order(
    text: Seq<char>,
    first: Seq<ResolvedValueView>,
    second: Seq<ResolvedValueView>,
)
    requires
        same_values(first, second),
        prefix_free(resolved_ids(first)),
        prefix_free(resolved_ids(second)),
    ensures
        spec_substitute(text, first) == spec_substitute(text, second),
    decreases text.len(),
{
    let ids = resolved_ids(first);
    let other_ids = resolved_ids(second);
    let upto = first.len() as int;
    let other_upto = second.len() as int;
    if text.len() > 0 {
        if exists|k: int| heads(text, ids, upto, k) {
            let k = choose|k: int| heads(text, ids, upto, k);
            assert(first.contains(first[k]));
            let other = choose|other: int| 0 <= other < second.len() && second[other] == first[k];
            assert(other_ids[other] == ids[k]);
            assert(heads(text, other_ids, other_upto, other));
            lemma_head_anchor_is(text, other_ids, other_upto, other);
            lemma_substitute_ignores_order(
                text.skip(spec_placeholder(ids[k]).len() as int),
                first,
                second,
            );
        } else {
            if exists|other: int| heads(text, other_ids, other_upto, other) {
                let other = choose|other: int| heads(text, other_ids, other_upto, other);
                assert(second.contains(second[other]));
                let k = choose|k: int| 0 <= k < first.len() && first[k] == second[other];
                assert(ids[k] == other_ids[other]);
                assert(heads(text, ids, upto, k));
            }
            lemma_substitute_ignores_order(text.skip(1), first, second);
        }
    }
}

/// The order of the values does not matter to the rendering, where the
/// discipline is kept.
///
/// Let `first` and `second` hold the same values, each id once. Let the
/// template and the values keep the discipline: no id and no canonical text
/// of a value holds a `$`, no placeholder of a value is the beginning of
/// that of another, and every `$` of the template either begins the
/// placeholder of a value or is loose. Then the template renders to the same
/// text with `first` as with `second`.
pub proof fn lemma_render_ignores_order(
    template: Seq<char>,
    first: Seq<ResolvedValueView>,
    second: Seq<ResolvedValueView>,
)
    requires
        keeps_discipline(template, first),
        same_values(first, second),
        prefix_free(resolved_ids(second)),
    ensures
        spec_render(template, first) == spec_render(template, second),
{
    assert forall|k: int| 0 <= k < second.len() implies dollar_free((#[trigger] second[k]).id)
        && dollar_free(spec_canonical_text(second[k].value)) by {
        assert(second.contains(second[k]));
        let j = choose|j: int| 0 <= j < first.len() && first[j] == second[k];
        assert(dollar_free(first[j].id));
    }
    let ids = resolved_ids(first);
    let other_ids = resolved_ids(second);
    assert(same_values(second, first));
    assert forall|at: int|
        0 <= at < template.len() && #[trigger] template[at] == '$' implies anchored_at(
        template,
        other_ids,
        0,
        at,
    ) || loose_at(template, other_ids, 0, at) by {
        if anchored_at(template, ids, 0, at) {
            lemma_anchored_by_same_values(template, first, second, at);
        } else {
            if anchored_at(template, other_ids, 0, at + 1) {
                lemma_anchored_by_same_values(template, second, first, at + 1);
            }
            if anchored_at(template, other_ids, 0, at + 2) {
                lemma_anchored_by_same_values(template, second, first, at + 2);
            }
        }
    }
    lemma_render_is_substitution(template, first);
    lemma_render_is_substitution(template, second);
    lemma_substitute_ignores_order(template, first, second);
}

} // verus!
