//! The template renderer: puts the collected values in the place of the
//! placeholders.
//!
//! The renderer replaces text by text, one value after the other. It does
//! not protect a value from the values that come after it, nor a `$` of the
//! template from what is put next to it. What a caller has to keep to for
//! the rendering to hold no placeholder, and for the order of the values not
//! to matter, is stated and proved in [`crate::discipline`] and
//! [`crate::substitution`].

use crate::coerce::{canonical_text, spec_canonical_text};
use crate::collector::{ResolvedValue, ResolvedValueView};
use crate::text::{append_chars, from_chars, replace_all, spec_replace_all, to_chars};
use vstd::prelude::*;

verus! {

/// The placeholder that refers to an id: `${{`, the id, `}}`.
pub open spec fn spec_placeholder(id: Seq<char>) -> Seq<char> {
    seq!['$', '{', '{'] + id + seq!['}', '}']
}

/// The placeholder that refers to `id`.
pub fn placeholder(id: &str) -> (pattern: Vec<char>)
    ensures
        pattern@ == spec_placeholder(id@),
{
    let mut pattern: Vec<char> = Vec::new();
    pattern.push('$');
    pattern.push('{');
    pattern.push('{');
    let name = to_chars(id);
    append_chars(&mut pattern, name.as_slice());
    pattern.push('}');
    pattern.push('}');
    pattern
}

/// The rendering of a template. The values are taken in their order; for
/// each, every occurrence of the placeholder of its id in the text so far is
/// replaced by the canonical text of the value. A value put in is not
/// searched for its own placeholder, but the values after it are applied to
/// it as to the rest of the text.
pub open spec fn spec_render(template: Seq<char>, resolved: Seq<ResolvedValueView>) -> Seq<char>
    decreases resolved.len(),
{
    if resolved.len() == 0 {
        template
    } else {
        spec_replace_all(
            spec_render(template, resolved.drop_last()),
            spec_placeholder(resolved.last().id),
            spec_canonical_text(resolved.last().value),
        )
    }
}

/// Renders a template with the collected values: for each value in order,
/// every occurrence of the placeholder of its id is replaced by the
/// canonical text of the value. A placeholder whose id has no value is left
/// as it is.
pub fn render(template: &str, resolved: &[ResolvedValue]) -> (output: String)
    ensures
        output@ == spec_render(template@, resolved.deep_view()),
{
    let ghost views = resolved.deep_view();
    let mut text = to_chars(template);
    let mut i: usize = 0;
    while i < resolved.len()
        invariant
            i <= resolved.len(),
            views == resolved.deep_view(),
            text@ == spec_render(template@, views.take(i as int)),
        decreases resolved.len() - i,
    {
        assert(views.take(i + 1).drop_last() =~= views.take(i as int));
        let pattern = placeholder(resolved[i].id.as_str());
        let value = canonical_text(&resolved[i].value);
        text = replace_all(text.as_slice(), pattern.as_slice(), value.as_slice());
        i += 1;
    }
    assert(views.take(i as int) =~= views);
    from_chars(text.as_slice())
}

/// The ids of a sequence of values.
pub open spec fn resolved_ids(resolved: Seq<ResolvedValueView>) -> Seq<Seq<char>> {
    resolved.map_values(|value: ResolvedValueView| value.id)
}

/// Two renderings of one template with the same values are the same text,
/// character by character and byte by byte.
pub proof fn lemma_render_is_repeatable(
    template: Seq<char>,
    resolved: Seq<ResolvedValueView>,
    first: String,
    second: String,
)
    requires
        first@ == spec_render(template, resolved),
        second@ == spec_render(template, resolved),
    ensures
        first@ == second@,
        vstd::utf8::encode_utf8(first@) == vstd::utf8::encode_utf8(second@),
{
}

} // verus!
