//! The schema binder: finds the placeholders of a template and resolves each
//! to the option that declares it.

use crate::coerce::OptionType;
use crate::error::{ConfigError, ConfigErrorView};
use crate::schema::{
    distinct_ids, spec_kind, spec_type_label, OptionDeclaration, OptionDeclarationView,
};
use regex::Regex;
use vstd::prelude::*;

verus! {

/// A compiled regular expression of the `regex` crate.
#[verifier::external_type_specification]
#[verifier::external_body]
pub struct ExRegex(regex::Regex);

/// The error with which the `regex` crate refuses a pattern.
#[verifier::external_type_specification]
#[verifier::external_body]
pub struct ExRegexError(regex::Error);

/// What the first capture group matched in each match that
/// `Regex::captures_iter` finds in `text` with a compiled expression, in the
/// order of the matches: `None` where the group took no part in a match.
pub uninterp spec fn captures_in(expression: Regex, text: Seq<char>) -> Seq<Option<Seq<char>>>;

/// The same for the expression that `Regex::new` compiles from `pattern`.
pub uninterp spec fn pattern_captures(pattern: Seq<char>, text: Seq<char>) -> Seq<
    Option<Seq<char>>,
>;

/// Whether `Regex::new` compiles `pattern`: the pattern is well formed and
/// the compiled expression keeps within the size limit that the `regex`
/// crate sets by default.
pub uninterp spec fn pattern_compiles(pattern: Seq<char>) -> bool;

/// Compiles a pattern with `Regex::new`. Whether the pattern compiles
/// depends on the pattern alone, and what the compiled expression finds in a
/// text on the pattern and the text alone; both are only named.
#[verifier::external_body]
fn compile(pattern: &str) -> (outcome: Result<Regex, regex::Error>)
    ensures
        outcome is Ok <==> pattern_compiles(pattern@),
        outcome matches Ok(expression) ==> forall|text: Seq<char>|
            #[trigger] captures_in(expression, text) == pattern_captures(pattern@, text),
{
    Regex::new(pattern)
}

/// Runs `Regex::captures_iter` over `text` and hands out, for each match in
/// order, the text of the first capture group (`Captures::get(1)`). What
/// the matches are is the `regex` crate's matter: the result is only named.
#[verifier::external_body]
fn capture_first_groups(expression: &Regex, text: &str) -> (captures: Vec<Option<String>>)
    ensures
        captures.deep_view() == captures_in(*expression, text@),
{
    expression.captures_iter(text).map(
        |found| found.get(1).map(|group| group.as_str().to_owned()),
    ).collect()
}

/// The pattern of a placeholder: `${{`, an id of one or more characters,
/// `}}`. The id is the pattern's first capture group. The id is taken as it
/// stands, and as long as the line allows: of two placeholders on one line
/// the pattern makes one, whose id runs from the first `${{` to the last
/// `}}`.
pub const PLACEHOLDER_PATTERN: &'static str = r"\$\{\{(.+)}}";

/// The ids that the placeholders of a template refer to, in the order of the
/// placeholders, repetitions included. A placeholder without an id is `None`.
pub open spec fn spec_references(template: Seq<char>) -> Seq<Option<Seq<char>>> {
    pattern_captures(PLACEHOLDER_PATTERN@, template)
}

/// A placeholder id together with the option that declares it.
#[derive(Debug, PartialEq, Eq)]
pub struct Binding<'a> {
    /// The declaration whose id the placeholder names.
    pub declaration: &'a OptionDeclaration,
    /// The kind that the declaration's type stands for.
    pub kind: OptionType,
}

/// Mathematical model of a [`Binding`].
pub struct BindingView {
    pub declaration: OptionDeclarationView,
    pub kind: OptionType,
}

impl<'a> View for Binding<'a> {
    type V = BindingView;

    open spec fn view(&self) -> BindingView {
        BindingView { declaration: self.declaration@, kind: self.kind }
    }
}

impl<'a> DeepView for Binding<'a> {
    type V = BindingView;

    open spec fn deep_view(&self) -> BindingView {
        self@
    }
}

/// The ids of a sequence of bindings.
pub open spec fn bound_ids(bindings: Seq<BindingView>) -> Seq<Seq<char>> {
    bindings.map_values(|binding: BindingView| binding.declaration.id)
}

/// The first declaration with the given id, if there is one.
pub open spec fn spec_find(options: Seq<OptionDeclarationView>, id: Seq<char>) -> Option<
    OptionDeclarationView,
>
    decreases options.len(),
{
    if options.len() == 0 {
        None
    } else {
        match spec_find(options.drop_last(), id) {
            Some(declaration) => Some(declaration),
            None => if options.last().id == id {
                Some(options.last())
            } else {
                None
            },
        }
    }
}

/// The binding of one reference: the declaration with its id and the kind
/// of that declaration. A reference without an id, or with an id that no
/// option declares, is an unknown option; a declaration with an unknown type
/// name is an invalid option type.
pub open spec fn spec_resolve_reference(
    reference: Option<Seq<char>>,
    options: Seq<OptionDeclarationView>,
) -> Result<BindingView, ConfigErrorView> {
    match reference {
        None => Err(ConfigErrorView::UnknownOption(Seq::empty())),
        Some(id) => match spec_find(options, id) {
            None => Err(ConfigErrorView::UnknownOption(id)),
            Some(declaration) => match spec_kind(declaration.declared_type) {
                None => Err(
                    ConfigErrorView::InvalidOptionType {
                        id,
                        declared_type: spec_type_label(declaration.declared_type),
                    },
                ),
                Some(kind) => Ok(BindingView { declaration, kind }),
            },
        },
    }
}

/// The bindings of a sequence of references: each reference is resolved in
/// order and bound unless its id is bound already, so that the bindings
/// stand in the order in which their ids first occur. The first reference
/// that cannot be resolved decides the error.
pub open spec fn spec_bind_references(
    references: Seq<Option<Seq<char>>>,
    options: Seq<OptionDeclarationView>,
) -> Result<Seq<BindingView>, ConfigErrorView>
    decreases references.len(),
{
    if references.len() == 0 {
        Ok(Seq::empty())
    } else {
        match spec_bind_references(references.drop_last(), options) {
            Err(error) => Err(error),
            Ok(bindings) => match spec_resolve_reference(references.last(), options) {
                Err(error) => Err(error),
                Ok(binding) => if bound_ids(bindings).contains(binding.declaration.id) {
                    Ok(bindings)
                } else {
                    Ok(bindings.push(binding))
                },
            },
        }
    }
}

/// A declaration that is found has the id that was looked for and is one of
/// the options.
pub proof fn lemma_find_is_declared(options: Seq<OptionDeclarationView>, id: Seq<char>)
    ensures
        spec_find(options, id) matches Some(declaration) ==> declaration.id == id
            && options.contains(declaration),
        spec_find(options, id) is None ==> forall|k: int|
            0 <= k < options.len() ==> (#[trigger] options[k]).id != id,
    decreases options.len(),
{
    if options.len() > 0 {
        let earlier = options.drop_last();
        lemma_find_is_declared(earlier, id);
        match spec_find(earlier, id) {
            Some(declaration) => {
                let k = choose|k: int| 0 <= k < earlier.len() && earlier[k] == declaration;
                assert(options[k] == declaration);
            },
            None => {
                assert forall|k: int| 0 <= k < options.len() - 1 implies (#[trigger] options[k]).id
                    != id by {
                    assert(earlier[k] == options[k]);
                }
            },
        }
    }
}

/// How the bindings of a sequence of references come from those of all but
/// the last: the last reference has an id and resolves to the declaration of
/// that id, and its binding is added unless the id is bound already.
proof fn lemma_bind_step(references: Seq<Option<Seq<char>>>, options: Seq<OptionDeclarationView>)
    requires
        references.len() > 0,
        spec_bind_references(references, options) is Ok,
    ensures
        spec_bind_references(references.drop_last(), options) is Ok,
        references.last() is Some,
        spec_resolve_reference(references.last(), options) is Ok,
        ({
            let bindings = spec_bind_references(references, options)->Ok_0;
            let bound = spec_bind_references(references.drop_last(), options)->Ok_0;
            let binding = spec_resolve_reference(references.last(), options)->Ok_0;
            let id = references.last()->Some_0;
            &&& binding.declaration.id == id
            &&& options.contains(binding.declaration)
            &&& spec_kind(binding.declaration.declared_type) == Some(binding.kind)
            &&& bound_ids(bound).contains(id) ==> bindings == bound
            &&& !bound_ids(bound).contains(id) ==> bindings == bound.push(binding) && bound_ids(
                bindings,
            ) == bound_ids(bound).push(id)
        }),
{
    let bound = spec_bind_references(references.drop_last(), options)->Ok_0;
    let binding = spec_resolve_reference(references.last(), options)->Ok_0;
    let id = references.last()->Some_0;
    lemma_find_is_declared(options, id);
}

/// Every reference that binds has an id, and that id is bound.
pub proof fn lemma_reference_is_bound(
    references: Seq<Option<Seq<char>>>,
    options: Seq<OptionDeclarationView>,
    r: int,
)
    requires
        spec_bind_references(references, options) is Ok,
        0 <= r < references.len(),
    ensures
        references[r] is Some,
        bound_ids(spec_bind_references(references, options)->Ok_0).contains(
            references[r]->Some_0,
        ),
    decreases references.len(),
{
    let ids = bound_ids(spec_bind_references(references, options)->Ok_0);
    let earlier = references.drop_last();
    let before = bound_ids(spec_bind_references(earlier, options)->Ok_0);
    let id = references.last()->Some_0;
    lemma_bind_step(references, options);
    if r < references.len() - 1 {
        lemma_reference_is_bound(earlier, options, r);
        let k = choose|k: int| 0 <= k < before.len() && before[k] == earlier[r]->Some_0;
        assert(ids[k] == before[k]);
    } else if before.contains(id) {
        let k = choose|k: int| 0 <= k < before.len() && before[k] == id;
        assert(ids[k] == id);
    } else {
        assert(ids[before.len() as int] == id);
    }
}

/// No two bindings have one id.
pub proof fn lemma_bound_ids_differ(
    references: Seq<Option<Seq<char>>>,
    options: Seq<OptionDeclarationView>,
    j: int,
    k: int,
)
    requires
        spec_bind_references(references, options) is Ok,
        0 <= j < k < spec_bind_references(references, options)->Ok_0.len(),
    ensures
        bound_ids(spec_bind_references(references, options)->Ok_0)[j] != bound_ids(
            spec_bind_references(references, options)->Ok_0,
        )[k],
    decreases references.len(),
{
    if references.len() > 0 {
        let earlier = references.drop_last();
        let before = bound_ids(spec_bind_references(earlier, options)->Ok_0);
        lemma_bind_step(references, options);
        if k < before.len() {
            lemma_bound_ids_differ(earlier, options, j, k);
        }
    }
}

/// Every binding holds one of the declared options, with the kind that the
/// option's type stands for, and its id is referred to.
pub proof fn lemma_binding_is_declared(
    references: Seq<Option<Seq<char>>>,
    options: Seq<OptionDeclarationView>,
    k: int,
)
    requires
        spec_bind_references(references, options) is Ok,
        0 <= k < spec_bind_references(references, options)->Ok_0.len(),
    ensures
        ({
            let binding = spec_bind_references(references, options)->Ok_0[k];
            &&& references.contains(Some(binding.declaration.id))
            &&& options.contains(binding.declaration)
            &&& spec_kind(binding.declaration.declared_type) == Some(binding.kind)
        }),
    decreases references.len(),
{
    if references.len() > 0 {
        let earlier = references.drop_last();
        let bound = spec_bind_references(earlier, options)->Ok_0;
        lemma_bind_step(references, options);
        if k < bound.len() {
            lemma_binding_is_declared(earlier, options, k);
            let r = choose|r: int|
                0 <= r < earlier.len() && earlier[r] == Some(bound[k].declaration.id);
            assert(references[r] == earlier[r]);
        }
    }
}

/// The bindings stand in the order in which their ids first occur: of two
/// bindings, the id of the first occurs in the references before every
/// occurrence of the id of the second.
pub proof fn lemma_bindings_keep_first_occurrence_order(
    references: Seq<Option<Seq<char>>>,
    options: Seq<OptionDeclarationView>,
    j: int,
    k: int,
    r: int,
)
    requires
        spec_bind_references(references, options) is Ok,
        0 <= j < k < spec_bind_references(references, options)->Ok_0.len(),
        0 <= r < references.len(),
        references[r] == Some(bound_ids(spec_bind_references(references, options)->Ok_0)[k]),
    ensures
        exists|before: int|
            0 <= before < r && #[trigger] references[before] == Some(
                bound_ids(spec_bind_references(references, options)->Ok_0)[j],
            ),
    decreases references.len(),
{
    let earlier = references.drop_last();
    let bound = spec_bind_references(earlier, options)->Ok_0;
    let ids = bound_ids(spec_bind_references(references, options)->Ok_0);
    lemma_bind_step(references, options);
    if r < references.len() - 1 {
        lemma_reference_is_bound(earlier, options, r);
        lemma_bindings_keep_first_occurrence_order(earlier, options, j, k, r);
        let before = choose|before: int|
            0 <= before < r && #[trigger] earlier[before] == Some(bound_ids(bound)[j]);
        assert(references[before] == earlier[before]);
    } else {
        lemma_binding_is_declared(earlier, options, j);
        let before = choose|before: int|
            0 <= before < earlier.len() && earlier[before] == Some(bound[j].declaration.id);
        assert(references[before] == earlier[before]);
    }
}

/// The declaration at `at` has the id of an earlier one.
pub open spec fn repeats_earlier(options: Seq<OptionDeclarationView>, at: int) -> bool {
    exists|earlier: int| 0 <= earlier < at && (#[trigger] options[earlier]).id == options[at].id
}

/// `at` is the first position whose declaration has the id of an earlier
/// one.
pub open spec fn is_first_repeat(options: Seq<OptionDeclarationView>, at: int) -> bool {
    &&& 0 <= at < options.len()
    &&& repeats_earlier(options, at)
    &&& forall|before: int| 0 <= before < at ==> !#[trigger] repeats_earlier(options, before)
}

/// What binding makes of the references of a template and the declared
/// options. Options that share an id are an error, whether they are referred
/// to or not, and the error names the first id that is declared again.
/// Otherwise the references are bound in order.
pub open spec fn spec_bind(
    references: Seq<Option<Seq<char>>>,
    options: Seq<OptionDeclarationView>,
) -> Result<Seq<BindingView>, ConfigErrorView> {
    if distinct_ids(options) {
        spec_bind_references(references, options)
    } else {
        Err(
            ConfigErrorView::DuplicateOption(
                options[choose|at: int| is_first_repeat(options, at)].id,
            ),
        )
    }
}

/// Mathematical model of the outcome of binding.
pub open spec fn binding_view(outcome: Result<Vec<Binding<'_>>, ConfigError>) -> Result<
    Seq<BindingView>,
    ConfigErrorView,
> {
    match outcome {
        Ok(bindings) => Ok(bindings.deep_view()),
        Err(error) => Err(error@),
    }
}

/// The schema binder. It holds the compiled placeholder pattern.
pub struct SchemaBinder {
    expression: Regex,
}

impl SchemaBinder {
    /// What the binder finds in a text: for each match of its compiled
    /// pattern, in the order of the matches, what the first capture group
    /// matched.
    pub closed spec fn finds(&self, text: Seq<char>) -> Seq<Option<Seq<char>>> {
        captures_in(self.expression, text)
    }

    #[verifier::type_invariant]
    spec fn holds_placeholder_pattern(&self) -> bool {
        forall|text: Seq<char>| #[trigger] self.finds(text) == spec_references(text)
    }

    /// Compiles the placeholder pattern into a binder. There is a binder
    /// just when the `regex` crate compiles the pattern. A binder that is
    /// made finds in every text the references that the placeholder pattern
    /// captures there.
    pub fn new() -> (binder: Option<SchemaBinder>)
        ensures
            binder is Some <==> pattern_compiles(PLACEHOLDER_PATTERN@),
            binder matches Some(made) ==> forall|text: Seq<char>|
                #[trigger] made.finds(text) == spec_references(text),
    {
        match compile(PLACEHOLDER_PATTERN) {
            Ok(expression) => Some(SchemaBinder { expression }),
            Err(_) => None,
        }
    }

    /// The ids that the placeholders of `template` refer to, in the order of
    /// the placeholders, repetitions included.
    pub fn references(&self, template: &str) -> (references: Vec<Option<String>>)
        ensures
            references.deep_view() == spec_references(template@),
    {
        proof {
            use_type_invariant(self);
            assert(self.finds(template@) == spec_references(template@));
        }
        capture_first_groups(&self.expression, template)
    }

    /// Binds the placeholders of `template` to the options that declare
    /// them.
    pub fn bind<'a>(&self, template: &str, options: &'a [OptionDeclaration]) -> (outcome: Result<
        Vec<Binding<'a>>,
        ConfigError,
    >)
        ensures
            binding_view(outcome) == spec_bind(spec_references(template@), options.deep_view()),
    {
        let references = self.references(template);
        bind_references(&references, options)
    }
}

/// The first declaration with the given id.
fn find<'a>(options: &'a [OptionDeclaration], id: &String) -> (found: Option<
    &'a OptionDeclaration,
>)
    ensures
        match found {
            Some(declaration) => spec_find(options.deep_view(), id@) == Some(declaration@),
            None => spec_find(options.deep_view(), id@) is None,
        },
{
    let ghost views = options.deep_view();
    let mut i: usize = 0;
    while i < options.len()
        invariant
            i <= options.len(),
            views == options.deep_view(),
            spec_find(views.take(i as int), id@) is None,
        decreases options.len() - i,
    {
        assert(views.take(i + 1).drop_last() =~= views.take(i as int));
        if options[i].id == *id {
            proof {
                lemma_find_prefix(views, id@, i + 1);
            }
            return Some(&options[i]);
        }
        i += 1;
    }
    assert(views.take(i as int) =~= views);
    None
}

/// What is found in a prefix of the options is found in all of them.
pub proof fn lemma_find_prefix(options: Seq<OptionDeclarationView>, id: Seq<char>, len: int)
    requires
        0 <= len <= options.len(),
        spec_find(options.take(len), id) is Some,
    ensures
        spec_find(options, id) == spec_find(options.take(len), id),
    decreases options.len() - len,
{
    if len < options.len() {
        assert(options.take(len + 1).drop_last() =~= options.take(len));
        lemma_find_prefix(options, id, len + 1);
    } else {
        assert(options.take(len) =~= options);
    }
}

/// Tells whether one of the bindings has the given id.
fn is_bound(bindings: &Vec<Binding<'_>>, id: &String) -> (bound: bool)
    ensures
        bound == bound_ids(bindings.deep_view()).contains(id@),
{
    let ghost ids = bound_ids(bindings.deep_view());
    let mut i: usize = 0;
    while i < bindings.len()
        invariant
            i <= bindings.len(),
            ids == bound_ids(bindings.deep_view()),
            forall|j: int| 0 <= j < i ==> ids[j] != id@,
        decreases bindings.len() - i,
    {
        assert(ids[i as int] == bindings[i as int].declaration.id@);
        if bindings[i].declaration.id == *id {
            return true;
        }
        i += 1;
    }
    false
}

/// The first position whose declaration has the id of an earlier one.
fn first_repeat(options: &[OptionDeclaration]) -> (found: Option<usize>)
    ensures
        match found {
            Some(at) => is_first_repeat(options.deep_view(), at as int),
            None => distinct_ids(options.deep_view()),
        },
{
    let ghost views = options.deep_view();
    let mut at: usize = 0;
    while at < options.len()
        invariant
            at <= options.len(),
            views == options.deep_view(),
            forall|before: int| 0 <= before < at ==> !#[trigger] repeats_earlier(views, before),
        decreases options.len() - at,
    {
        let mut earlier: usize = 0;
        while earlier < at
            invariant
                earlier <= at < options.len(),
                views == options.deep_view(),
                forall|before: int|
                    0 <= before < at ==> !#[trigger] repeats_earlier(views, before),
                forall|k: int| 0 <= k < earlier ==> (#[trigger] views[k]).id != views[at as int].id,
            decreases at - earlier,
        {
            assert(views[earlier as int] == options[earlier as int]@);
            if options[earlier].id == options[at].id {
                return Some(at);
            }
            earlier += 1;
        }
        at += 1;
    }
    assert forall|i: int, j: int| 0 <= i < j < views.len() implies (#[trigger] views[i]).id != (
    #[trigger] views[j]).id by {
        assert(!repeats_earlier(views, j));
    }
    None
}

/// Binds references that were read from a template to the options that
/// declare them.
pub fn bind_references<'a>(
    references: &Vec<Option<String>>,
    options: &'a [OptionDeclaration],
) -> (outcome: Result<Vec<Binding<'a>>, ConfigError>)
    ensures
        binding_view(outcome) == spec_bind(references.deep_view(), options.deep_view()),
{
    let ghost views = options.deep_view();
    let ghost wanted = references.deep_view();
    match first_repeat(options) {
        Some(at) => {
            // There is one first repeat only.
            let ghost chosen = choose|at: int| is_first_repeat(views, at);
            assert(chosen == at) by {
                if chosen < at {
                    assert(!repeats_earlier(views, chosen));
                } else if at < chosen {
                    assert(!repeats_earlier(views, at as int));
                }
            }
            return Err(ConfigError::DuplicateOption(options[at].id.clone()));
        },
        None => {},
    }
    let mut bindings: Vec<Binding<'a>> = Vec::new();
    let mut i: usize = 0;
    assert(bindings.deep_view() =~= Seq::empty());
    while i < references.len()
        invariant
            i <= references.len(),
            views == options.deep_view(),
            wanted == references.deep_view(),
            distinct_ids(views),
            spec_bind_references(wanted.take(i as int), views) == Ok::<
                Seq<BindingView>,
                ConfigErrorView,
            >(bindings.deep_view()),
        decreases references.len() - i,
    {
        let ghost before = bindings.deep_view();
        assert(wanted.take(i + 1).drop_last() =~= wanted.take(i as int));
        let resolved = match &references[i] {
            None => Err(ConfigError::UnknownOption(String::new())),
            Some(id) => match find(options, id) {
                None => Err(ConfigError::UnknownOption(id.clone())),
                Some(declaration) => match declaration.kind() {
                    None => Err(
                        ConfigError::InvalidOptionType {
                            id: id.clone(),
                            declared_type: declaration.type_label(),
                        },
                    ),
                    Some(kind) => Ok(Binding { declaration, kind }),
                },
            },
        };
        match resolved {
            Err(error) => {
                proof {
                    lemma_bind_failure_stays(wanted, views, i + 1);
                }
                return Err(error);
            },
            Ok(binding) => {
                if !is_bound(&bindings, &binding.declaration.id) {
                    bindings.push(binding);
                    assert(bindings.deep_view() =~= before.push(binding@));
                }
            },
        }
        i += 1;
    }
    assert(wanted.take(i as int) =~= wanted);
    Ok(bindings)
}

/// Once a prefix of the references fails to bind, all of them fail with the
/// same error.
pub proof fn lemma_bind_failure_stays(
    references: Seq<Option<Seq<char>>>,
    options: Seq<OptionDeclarationView>,
    len: int,
)
    requires
        0 <= len <= references.len(),
        spec_bind_references(references.take(len), options) is Err,
    ensures
        spec_bind_references(references, options) == spec_bind_references(
            references.take(len),
            options,
        ),
    decreases references.len() - len,
{
    if len < references.len() {
        assert(references.take(len + 1).drop_last() =~= references.take(len));
        lemma_bind_failure_stays(references, options, len + 1);
    } else {
        assert(references.take(len) =~= references);
    }
}

} // verus!
