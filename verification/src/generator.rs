//! A whole run without its input and output: bind, collect, render.

use crate::binder::{bound_ids, spec_bind, spec_references, BindingView, SchemaBinder};
use crate::coerce::spec_canonical_text;
use crate::collector::{
    answered, collect, collected, declarations_of, lemma_collect_keeps_ids,
    lemma_collect_resolves_each, spec_collect, texts,
};
use crate::discipline::{
    disciplined, dollar_free, lemma_render_leaves_no_placeholder,
    lemma_render_of_plain_values_leaves_no_placeholder, openings_anchored, plain,
};
use crate::error::{ConfigError, ConfigErrorView};
use crate::render::{render, resolved_ids, spec_placeholder, spec_render};
use crate::schema::{OptionDeclaration, OptionDeclarationView, TemplateSpec};
use crate::text::occurs_in;
use vstd::prelude::*;

verus! {

/// What a run comes to once the bindings are made and the answers are
/// given: the rendering of the template with the collected values, or the
/// error that ended the collection.
pub open spec fn spec_generate(
    template: Seq<char>,
    bindings: Seq<BindingView>,
    answers: Seq<Seq<char>>,
) -> Result<Seq<char>, ConfigErrorView> {
    match spec_collect(bindings, answers) {
        Ok(resolved) => Ok(spec_render(template, resolved)),
        Err(error) => Err(error),
    }
}

/// Mathematical model of the outcome of a run.
pub open spec fn output_view(outcome: Result<String, ConfigError>) -> Result<
    Seq<char>,
    ConfigErrorView,
> {
    match outcome {
        Ok(text) => Ok(text@),
        Err(error) => Err(error@),
    }
}

/// The models of a sequence of declarations.
pub open spec fn declaration_views(declarations: Seq<&OptionDeclaration>) -> Seq<
    OptionDeclarationView,
> {
    declarations.map_values(|declaration: &OptionDeclaration| declaration@)
}

/// The declarations of a sequence of bindings.
pub open spec fn bound_declarations(bindings: Seq<BindingView>) -> Seq<
    OptionDeclarationView,
> {
    bindings.map_values(|binding: BindingView| binding.declaration)
}

/// Runs the schema: binds the placeholders of its template, asks `prompt`
/// for a value for each bound option in the order of the bindings, and
/// renders the template with the values.
///
/// Where binding fails the run ends with that error and `prompt` is never
/// asked: nothing is required of `prompt` there, so it cannot be asked.
/// Otherwise `prompt` is asked about the declarations of the bindings in
/// order, which it has to accept, and the run ends with the rendering, or
/// with the error of the first answer that does not resolve.
pub fn generate<F: Fn(&OptionDeclaration) -> String>(
    binder: &SchemaBinder,
    schema: &TemplateSpec,
    prompt: F,
) -> (outcome: Result<String, ConfigError>)
    requires
        spec_bind(spec_references(schema@.template), schema@.options) matches Ok(bindings)
            ==> forall|declaration: &OptionDeclaration| #[trigger]
            bound_declarations(bindings).contains(declaration@) ==> call_requires(
                prompt,
                (declaration,),
            ),
    ensures
        match spec_bind(spec_references(schema@.template), schema@.options) {
            Err(error) => output_view(outcome) == Err::<Seq<char>, ConfigErrorView>(error),
            Ok(bindings) => exists|declarations: Seq<&OptionDeclaration>, answers: Seq<String>|
                {
                    &&& declaration_views(declarations) == bound_declarations(bindings)
                    &&& answered(prompt, declarations, answers)
                    &&& collected(bindings, texts(answers), spec_collect(bindings, texts(answers)))
                    &&& output_view(outcome) == spec_generate(
                        schema@.template,
                        bindings,
                        texts(answers),
                    )
                },
        },
{
    let bindings = match binder.bind(schema.template.as_str(), schema.options.as_slice()) {
        Ok(bindings) => bindings,
        Err(error) => {
            return Err(error);
        },
    };
    assert(declaration_views(declarations_of(bindings@)) =~= bound_declarations(
        bindings.deep_view(),
    ));
    assert forall|i: int| 0 <= i < bindings.len() implies call_requires(
        prompt,
        ((#[trigger] bindings[i]).declaration,),
    ) by {
        let expected = spec_bind(spec_references(schema@.template), schema@.options);
        assert(expected == Ok::<Seq<BindingView>, ConfigErrorView>(bindings.deep_view()));
        let bound = bound_declarations(expected->Ok_0);
        assert(bound[i] == bindings[i].declaration@);
        assert(bound.contains(bindings[i].declaration@));
    }
    match collect(bindings.as_slice(), prompt) {
        Ok(resolved) => Ok(render(schema.template.as_str(), resolved.as_slice())),
        Err(error) => Err(error),
    }
}

/// A run that binds and collects leaves no placeholder behind, where `$` is
/// kept for placeholders.
///
/// Let the references of a template bind to `bindings` and every binding be
/// answered so that the collection succeeds. Let no bound id and no
/// canonical text of a collected value hold a `$`, and let every `$` of the
/// template either begin the placeholder of a bound id or be loose. Then the
/// run succeeds, and its output holds the placeholder of no id.
pub proof fn lemma_generate_leaves_no_placeholder(
    template: Seq<char>,
    references: Seq<Option<Seq<char>>>,
    options: Seq<OptionDeclarationView>,
    answers: Seq<Seq<char>>,
)
    requires
        spec_bind(references, options) is Ok,
        answers.len() == spec_bind(references, options)->Ok_0.len(),
        spec_collect(spec_bind(references, options)->Ok_0, answers) is Ok,
        forall|k: int|
            0 <= k < answers.len() ==> dollar_free(
                #[trigger] bound_ids(spec_bind(references, options)->Ok_0)[k],
            ),
        forall|k: int|
            0 <= k < answers.len() ==> dollar_free(
                spec_canonical_text(
                    (#[trigger] spec_collect(
                        spec_bind(references, options)->Ok_0,
                        answers,
                    )->Ok_0[k]).value,
                ),
            ),
        disciplined(template, bound_ids(spec_bind(references, options)->Ok_0), 0),
    ensures
        spec_generate(template, spec_bind(references, options)->Ok_0, answers) is Ok,
        forall|id: Seq<char>|
            !occurs_in(
                spec_generate(template, spec_bind(references, options)->Ok_0, answers)->Ok_0,
                spec_placeholder(id),
            ),
{
    let bindings = spec_bind(references, options)->Ok_0;
    let resolved = spec_collect(bindings, answers)->Ok_0;
    lemma_collect_resolves_each(bindings, answers);
    lemma_collect_keeps_ids(bindings, answers);
    assert(resolved_ids(resolved) =~= bound_ids(bindings));
    assert forall|k: int| 0 <= k < resolved.len() implies dollar_free(
        (#[trigger] resolved[k]).id,
    ) by {
        assert(resolved[k].id == bound_ids(bindings)[k]);
    }
    lemma_render_leaves_no_placeholder(template, resolved);
}

/// A run that binds and collects leaves no placeholder behind, where the
/// values are plain.
///
/// Let the references of a template bind to `bindings` and every binding be
/// answered so that the collection succeeds. Let every opening `${{` of the
/// template begin the placeholder of a bound id, let no bound id hold a `$`,
/// and let every string among the collected values be plain: not empty, and
/// without `$` and `{`. Then the run succeeds, and its output holds the
/// placeholder of no id. Numbers and booleans are plain as they are written.
pub proof fn lemma_generate_of_plain_values_leaves_no_placeholder(
    template: Seq<char>,
    references: Seq<Option<Seq<char>>>,
    options: Seq<OptionDeclarationView>,
    answers: Seq<Seq<char>>,
)
    requires
        spec_bind(references, options) is Ok,
        answers.len() == spec_bind(references, options)->Ok_0.len(),
        spec_collect(spec_bind(references, options)->Ok_0, answers) is Ok,
        forall|k: int|
            0 <= k < answers.len() ==> dollar_free(
                #[trigger] bound_ids(spec_bind(references, options)->Ok_0)[k],
            ),
        forall|k: int|
            0 <= k < answers.len() && (#[trigger] spec_collect(
                spec_bind(references, options)->Ok_0,
                answers,
            )->Ok_0[k]).value is String ==> plain(
                spec_canonical_text(
                    spec_collect(spec_bind(references, options)->Ok_0, answers)->Ok_0[k].value,
                ),
            ),
        openings_anchored(template, bound_ids(spec_bind(references, options)->Ok_0), 0),
    ensures
        spec_generate(template, spec_bind(references, options)->Ok_0, answers) is Ok,
        forall|id: Seq<char>|
            !occurs_in(
                spec_generate(template, spec_bind(references, options)->Ok_0, answers)->Ok_0,
                spec_placeholder(id),
            ),
{
    let bindings = spec_bind(references, options)->Ok_0;
    let resolved = spec_collect(bindings, answers)->Ok_0;
    lemma_collect_resolves_each(bindings, answers);
    lemma_collect_keeps_ids(bindings, answers);
    assert(resolved_ids(resolved) =~= bound_ids(bindings));
    assert forall|k: int| 0 <= k < resolved.len() implies dollar_free(
        (#[trigger] resolved[k]).id,
    ) by {
        assert(resolved[k].id == bound_ids(bindings)[k]);
    }
    lemma_render_of_plain_values_leaves_no_placeholder(template, resolved);
}

} // verus!
