//! The interactive collector: asks for a value for each bound option and
//! coerces what comes back.

use crate::binder::{Binding, BindingView};
use crate::coerce::{coerce, spec_coerce, TypedValue, TypedValueView};
use crate::error::{spec_tagged, ConfigError, ConfigErrorView};
use crate::schema::OptionDeclaration;
use vstd::prelude::*;

verus! {

/// The value collected for one option.
#[derive(Debug, PartialEq, Eq)]
pub struct ResolvedValue {
    /// The id of the option.
    pub id: String,
    /// The text that was coerced: what the operator entered, or the default.
    pub raw_input: String,
    /// What the text was coerced to.
    pub value: TypedValue,
}

/// Mathematical model of a [`ResolvedValue`].
pub struct ResolvedValueView {
    pub id: Seq<char>,
    pub raw_input: Seq<char>,
    pub value: TypedValueView,
}

impl View for ResolvedValue {
    type V = ResolvedValueView;

    open spec fn view(&self) -> ResolvedValueView {
        ResolvedValueView { id: self.id@, raw_input: self.raw_input@, value: self.value@ }
    }
}

impl DeepView for ResolvedValue {
    type V = ResolvedValueView;

    open spec fn deep_view(&self) -> ResolvedValueView {
        self@
    }
}

/// The text that stands for an answer: the answer itself, or the default of
/// the option where the answer is empty. There is none where the answer is
/// empty and the option has no default.
pub open spec fn spec_raw_input(binding: BindingView, answer: Seq<char>) -> Option<Seq<char>> {
    if answer.len() == 0 {
        binding.declaration.default
    } else {
        Some(answer)
    }
}

/// What an answer resolves to. An empty answer to an option without a
/// default is a missing required value. Otherwise the answer, or the default
/// in place of an empty one, is coerced to the kind of the option, and a
/// failure of the coercion is tagged with the id of the option.
pub open spec fn spec_resolve(binding: BindingView, answer: Seq<char>) -> Result<
    ResolvedValueView,
    ConfigErrorView,
> {
    let id = binding.declaration.id;
    match spec_raw_input(binding, answer) {
        None => Err(ConfigErrorView::MissingRequiredValue(id)),
        Some(raw_input) => match spec_coerce(raw_input, binding.kind) {
            Ok(value) => Ok(ResolvedValueView { id, raw_input, value }),
            Err(error) => Err(spec_tagged(error, id)),
        },
    }
}

/// Mathematical model of the outcome of resolving one answer.
pub open spec fn resolution_view(outcome: Result<ResolvedValue, ConfigError>) -> Result<
    ResolvedValueView,
    ConfigErrorView,
> {
    match outcome {
        Ok(resolved) => Ok(resolved@),
        Err(error) => Err(error@),
    }
}

/// Resolves the operator's answer for one bound option.
pub fn resolve(binding: &Binding<'_>, answer: &str) -> (outcome: Result<
    ResolvedValue,
    ConfigError,
>)
    ensures
        resolution_view(outcome) == spec_resolve(binding@, answer@),
{
    let declaration = binding.declaration;
    let raw_input: String = if answer.is_empty() {
        match &declaration.default {
            Some(default) => default.clone(),
            None => {
                return Err(ConfigError::MissingRequiredValue(declaration.id.clone()));
            },
        }
    } else {
        answer.to_owned()
    };
    match coerce(raw_input.as_str(), binding.kind) {
        Ok(value) => Ok(ResolvedValue { id: declaration.id.clone(), raw_input, value }),
        Err(error) => Err(ConfigError::tagged(error, declaration.id.clone())),
    }
}

/// What a sequence of answers resolves to, the answers taken as given to the
/// bindings in order: the values of all of them, or the error of the first
/// that fails.
pub open spec fn spec_collect(bindings: Seq<BindingView>, answers: Seq<Seq<char>>) -> Result<
    Seq<ResolvedValueView>,
    ConfigErrorView,
>
    decreases answers.len(),
{
    if answers.len() == 0 {
        Ok(Seq::empty())
    } else {
        match spec_collect(bindings, answers.drop_last()) {
            Err(error) => Err(error),
            Ok(resolved) => match spec_resolve(bindings[answers.len() - 1], answers.last()) {
                Err(error) => Err(error),
                Ok(value) => Ok(resolved.push(value)),
            },
        }
    }
}

/// A collection succeeds just when every answer resolves, and its values
/// are what the answers resolve to, one for each answer in order.
pub proof fn lemma_collect_resolves_each(bindings: Seq<BindingView>, answers: Seq<Seq<char>>)
    ensures
        spec_collect(bindings, answers) is Ok <==> forall|k: int|
            0 <= k < answers.len() ==> spec_resolve(bindings[k], #[trigger] answers[k]) is Ok,
        spec_collect(bindings, answers) matches Ok(resolved) ==> {
            &&& resolved.len() == answers.len()
            &&& forall|k: int|
                0 <= k < answers.len() ==> spec_resolve(bindings[k], answers[k]) == Ok::<
                    ResolvedValueView,
                    ConfigErrorView,
                >(#[trigger] resolved[k])
        },
    decreases answers.len(),
{
    if answers.len() > 0 {
        let earlier = answers.drop_last();
        lemma_collect_resolves_each(bindings, earlier);
        assert forall|k: int| 0 <= k < earlier.len() implies earlier[k] == answers[k] by {}
        if spec_collect(bindings, answers) is Ok {
            assert forall|k: int| 0 <= k < answers.len() implies spec_resolve(
                bindings[k],
                #[trigger] answers[k],
            ) is Ok by {}
        }
        if forall|k: int|
            0 <= k < answers.len() ==> spec_resolve(bindings[k], #[trigger] answers[k]) is Ok {
            assert forall|k: int| 0 <= k < earlier.len() implies spec_resolve(
                bindings[k],
                #[trigger] earlier[k],
            ) is Ok by {}
        }
    }
}

/// Every collected value carries the id of the binding it was collected
/// for.
pub proof fn lemma_collect_keeps_ids(bindings: Seq<BindingView>, answers: Seq<Seq<char>>)
    requires
        spec_collect(bindings, answers) is Ok,
    ensures
        forall|k: int|
            0 <= k < answers.len() ==> (#[trigger] spec_collect(bindings, answers)->Ok_0[k]).id
                == bindings[k].declaration.id,
{
    lemma_collect_resolves_each(bindings, answers);
}

/// Mathematical model of the outcome of a collection.
pub open spec fn collection_view(outcome: Result<Vec<ResolvedValue>, ConfigError>) -> Result<
    Seq<ResolvedValueView>,
    ConfigErrorView,
> {
    match outcome {
        Ok(resolved) => Ok(resolved.deep_view()),
        Err(error) => Err(error@),
    }
}

/// The characters of a sequence of strings.
pub open spec fn texts(answers: Seq<String>) -> Seq<Seq<char>> {
    answers.map_values(|answer: String| answer@)
}

/// `answers` are answers that `prompt` gave when it was asked about the
/// declarations in order, one answer for each of the first declarations.
pub open spec fn answered<F: Fn(&OptionDeclaration) -> String>(
    prompt: F,
    declarations: Seq<&OptionDeclaration>,
    answers: Seq<String>,
) -> bool {
    &&& answers.len() <= declarations.len()
    &&& forall|i: int|
        0 <= i < answers.len() ==> call_ensures(prompt, (declarations[i],), #[trigger] answers[i])
}

/// The declarations of a sequence of bindings.
pub open spec fn declarations_of(bindings: Seq<Binding<'_>>) -> Seq<&OptionDeclaration> {
    bindings.map_values(|binding: Binding<'_>| binding.declaration)
}

/// `outcome` is what collecting comes to when the answers are `answers`:
/// every binding was answered and all answers resolved, or the last answer
/// is the first that failed to resolve and no more were asked for.
pub open spec fn collected(
    bindings: Seq<BindingView>,
    answers: Seq<Seq<char>>,
    outcome: Result<Seq<ResolvedValueView>, ConfigErrorView>,
) -> bool {
    &&& answers.len() <= bindings.len()
    &&& outcome == spec_collect(bindings, answers)
    &&& outcome is Ok ==> answers.len() == bindings.len()
    &&& outcome is Err ==> answers.len() > 0 && spec_collect(bindings, answers.drop_last()) is Ok
}

/// Asks `prompt` for an answer for each binding in order and resolves the
/// answers. The first answer that fails to resolve ends the collection with
/// its error, and `prompt` is not asked again.
pub fn collect<F: Fn(&OptionDeclaration) -> String>(bindings: &[Binding<'_>], prompt: F) -> (outcome:
    Result<Vec<ResolvedValue>, ConfigError>)
    requires
        forall|i: int|
            0 <= i < bindings.len() ==> call_requires(prompt, ((#[trigger] bindings[i]).declaration,)),
    ensures
        exists|answers: Seq<String>|
            {
                &&& answered(prompt, declarations_of(bindings@), answers)
                &&& collected(bindings.deep_view(), texts(answers), collection_view(outcome))
            },
{
    let ghost views = bindings.deep_view();
    let ghost mut answers: Seq<String> = Seq::empty();
    let mut resolved: Vec<ResolvedValue> = Vec::new();
    let mut i: usize = 0;
    assert(resolved.deep_view() =~= Seq::empty());
    while i < bindings.len()
        invariant
            i <= bindings.len(),
            views == bindings.deep_view(),
            answers.len() == i,
            answered(prompt, declarations_of(bindings@), answers),
            spec_collect(views, texts(answers)) == Ok::<Seq<ResolvedValueView>, ConfigErrorView>(
                resolved.deep_view(),
            ),
            forall|k: int|
                0 <= k < bindings.len() ==> call_requires(
                    prompt,
                    ((#[trigger] bindings[k]).declaration,),
                ),
        decreases bindings.len() - i,
    {
        let ghost earlier = answers;
        let ghost before = resolved.deep_view();
        let answer = prompt(bindings[i].declaration);
        proof {
            answers = answers.push(answer);
            assert(texts(answers).drop_last() =~= texts(earlier));
        }
        match resolve(&bindings[i], answer.as_str()) {
            Ok(value) => {
                resolved.push(value);
                assert(resolved.deep_view() =~= before.push(value@));
            },
            Err(error) => {
                assert(answered(prompt, declarations_of(bindings@), answers));
                return Err(error);
            },
        }
        i += 1;
    }
    Ok(resolved)
}

} // verus!
