//! Prompt templates adapted to providers: the task, the examples, the input
//! and optional context are filled into a base template.

use vstd::prelude::*;
use crate::text::{push_str, chars_of, byte_len};
use crate::data::{ExampleData, FormatType, lookup};
use crate::exceptions::{LangExtractError, LangExtractResult};
use crate::providers::ProviderType;
use crate::templates::{
    Variables, TemplateBuilder, TemplateEngine, ExampleFormatter, render_result, examples_outcome, examples_result,
    format_instruction_text, output_header_text, reasoning_instruction_text,
};

verus! {

broadcast use vstd::seq::group_seq_axioms;

/// The ways working with a prompt template can fail.
#[derive(Debug, Clone, PartialEq, Eq)]
pub enum TemplateError {
    /// A variable the template needs has no value.
    MissingVariable { variable: String },
    /// The template is malformed.
    InvalidSyntax { message: String },
    /// An example could not be formatted.
    ExampleError { message: String },
}

impl TemplateError {
    /// The message of the error.
    pub open spec fn spec_message(&self) -> Seq<char> {
        match self {
            TemplateError::MissingVariable { variable } => "Missing required variable: "@ + variable@,
            TemplateError::InvalidSyntax { message } => "Invalid template syntax: "@ + message@,
            TemplateError::ExampleError { message } => "Example formatting error: "@ + message@,
        }
    }

    /// The message of the error.
    pub fn to_string(&self) -> (r: String)
        ensures
            r@ == self.spec_message(),
    {
        let mut r = String::new();
        match self {
            TemplateError::MissingVariable { variable } => {
                push_str(&mut r, "Missing required variable: ");
                push_str(&mut r, variable.as_str());
            },
            TemplateError::InvalidSyntax { message } => {
                push_str(&mut r, "Invalid template syntax: ");
                push_str(&mut r, message.as_str());
            },
            TemplateError::ExampleError { message } => {
                push_str(&mut r, "Example formatting error: ");
                push_str(&mut r, message.as_str());
            },
        }
        r
    }

    /// The library error for this error: invalid input carrying the message.
    pub fn into_error(self) -> (e: LangExtractError)
        ensures
            e matches LangExtractError::InvalidInput(m) && m@ == self.spec_message(),
    {
        LangExtractError::InvalidInput(self.to_string())
    }
}

/// What a prompt is rendered from.
pub struct PromptContext {
    /// What to extract.
    pub task_description: String,
    /// Worked examples.
    pub examples: Vec<ExampleData>,
    /// The text to extract from.
    pub input_text: String,
    /// Further context for the model.
    pub additional_context: Option<String>,
    /// A hint about the structure of the output.
    pub schema_hint: Option<String>,
    /// Custom variables for the template.
    pub variables: Variables,
}

impl PromptContext {
    /// A context with a task and an input, and nothing else.
    pub fn new(task_description: String, input_text: String) -> (c: Self)
        ensures
            c.task_description == task_description,
            c.input_text == input_text,
            c.examples@.len() == 0,
            c.additional_context is None,
            c.schema_hint is None,
            forall|name: Seq<char>| c.variables.value_of(name) is None,
    {
        PromptContext {
            task_description,
            input_text,
            examples: Vec::new(),
            additional_context: None,
            schema_hint: None,
            variables: Variables::new(),
        }
    }

    /// Sets the examples.
    pub fn with_examples(self, examples: Vec<ExampleData>) -> (c: Self)
        ensures
            c.examples == examples,
            c.task_description == self.task_description,
            c.input_text == self.input_text,
            c.additional_context == self.additional_context,
            c.schema_hint == self.schema_hint,
            c.variables == self.variables,
    {
        let mut c = self;
        c.examples = examples;
        c
    }

    /// Sets the additional context.
    pub fn with_context(self, context: String) -> (c: Self)
        ensures
            c.additional_context == Some(context),
            c.task_description == self.task_description,
            c.input_text == self.input_text,
            c.examples == self.examples,
            c.schema_hint == self.schema_hint,
            c.variables == self.variables,
    {
        let mut c = self;
        c.additional_context = Some(context);
        c
    }

    /// Sets a custom variable.
    pub fn with_variable(self, key: String, value: String) -> (c: Self)
        ensures
            c.variables.value_of(key@) == Some(value@),
            forall|other: Seq<char>| other != key@ ==> c.variables.value_of(other) == self.variables.value_of(other),
            c.task_description == self.task_description,
            c.input_text == self.input_text,
            c.examples == self.examples,
            c.additional_context == self.additional_context,
            c.schema_hint == self.schema_hint,
    {
        let mut c = self;
        c.variables.insert(key, value);
        c
    }

    /// Sets the schema hint.
    pub fn with_schema_hint(self, hint: String) -> (c: Self)
        ensures
            c.schema_hint == Some(hint),
            c.task_description == self.task_description,
            c.input_text == self.input_text,
            c.examples == self.examples,
            c.additional_context == self.additional_context,
            c.variables == self.variables,
    {
        let mut c = self;
        c.schema_hint = Some(hint);
        c
    }
}

/// A prompt template for a format and a provider.
#[derive(Debug, Clone)]
pub struct PromptTemplate {
    /// The template with placeholders.
    pub base_template: String,
    /// A system message for providers that take one.
    pub system_message: Option<String>,
    /// How one example is laid out.
    pub example_template: String,
    /// The output format.
    pub format_type: FormatType,
    /// The provider the prompt is for.
    pub provider_type: ProviderType,
    /// The most examples included.
    pub max_examples: Option<usize>,
    /// Whether the model is asked to reason step by step.
    pub include_reasoning: bool,
}

/// The text of an optional string.
pub open spec fn opt_view(o: Option<String>) -> Option<Seq<char>> {
    match o {
        Some(s) => Some(s@),
        None => None,
    }
}

/// The default base template for a format and provider: the builder's
/// template, whose examples section is followed by the reasoning request
/// and the schema hint, with the reasoning instruction for Ollama and
/// custom providers.
pub open spec fn default_base_template_text(format_type: FormatType, provider_type: ProviderType) -> Seq<char> {
    "{task_description}\n\n"@ + "You are an expert information extraction assistant. "@ + format_instruction_text(format_type)
        + "{additional_context}"@ + "{examples}{reasoning}{schema_hint}"@ + (if provider_type != ProviderType::OpenAI {
        reasoning_instruction_text()
    } else {
        Seq::<char>::empty()
    }) + ("\n\nNow extract information from this text:\n\nInput: "@ + "{input_text}"@ + output_header_text(format_type))
        + "\n"@
}

/// The default layout of an example for a format.
pub open spec fn default_example_template_text(format_type: FormatType) -> Seq<char> {
    match format_type {
        FormatType::Json => "Input: {input}\nOutput: {output_json}\n"@,
        FormatType::Yaml => "Input: {input}\nOutput:\n{output_yaml}\n"@,
    }
}

/// The values of the variables of a prompt: custom variables first, then
/// the task, the input, the additional context, the examples, the
/// reasoning request and the schema hint.
pub open spec fn prompt_values(
    include_reasoning: bool,
    task: Seq<char>,
    input: Seq<char>,
    additional_context: Option<Seq<char>>,
    examples: Seq<char>,
    schema_hint: Option<Seq<char>>,
    custom: spec_fn(Seq<char>) -> Option<Seq<char>>,
) -> spec_fn(Seq<char>) -> Option<Seq<char>> {
    |n: Seq<char>|
        if custom(n) is Some {
            custom(n)
        } else if n == "task_description"@ {
            Some(task)
        } else if n == "input_text"@ {
            Some(input)
        } else if n == "additional_context"@ {
            Some(
                match additional_context {
                    Some(c) => "\n\nAdditional Context: "@ + c + "\n"@,
                    None => Seq::<char>::empty(),
                },
            )
        } else if n == "examples"@ {
            Some(examples)
        } else if n == "reasoning"@ {
            Some(
                if include_reasoning {
                    "\n\nPlease think through this step by step before providing your answer."@
                } else {
                    Seq::<char>::empty()
                },
            )
        } else if n == "schema_hint"@ {
            Some(
                match schema_hint {
                    Some(h) => "\n\nSchema guidance: "@ + h + "\n"@,
                    None => Seq::<char>::empty(),
                },
            )
        } else {
            None
        }
}

/// What filling `template` for a context gives: the error of formatting
/// the examples, or the template rendered with [`prompt_values`], where a
/// placeholder without a value is an error.
pub open spec fn substitution_result(
    t: PromptTemplate,
    template: Seq<char>,
    task: Seq<char>,
    input: Seq<char>,
    additional_context: Option<Seq<char>>,
    examples: Seq<ExampleData>,
    schema_hint: Option<Seq<char>>,
    custom: spec_fn(Seq<char>) -> Option<Seq<char>>,
    r: LangExtractResult<String>,
) -> bool {
    match examples_outcome(t.format_type, t.max_examples, examples) {
        Err(m) => r matches Err(LangExtractError::InvalidInput(x)) && x@ == m,
        Ok(ex) => render_result(
            template,
            "{"@,
            "}"@,
            prompt_values(t.include_reasoning, task, input, additional_context, ex, schema_hint, custom),
            false,
            r,
        ),
    }
}

/// The names of the placeholders of `t` from `i` on, after `seen`: every
/// `{` with a later `}` encloses a name; empty names and names already seen
/// are left out.
pub open spec fn brace_names_from(t: Seq<char>, i: int, seen: Seq<Seq<char>>) -> Seq<Seq<char>>
    decreases t.len() - i,
{
    if i < 0 || i >= t.len() {
        seen
    } else {
        match crate::templates::find_chars(t, seq!['{'], i) {
            None => seen,
            Some(a) => {
                proof {
                    crate::templates::lemma_find_chars(t, seq!['{'], i);
                    crate::templates::lemma_find_chars(t, seq!['}'], a);
                }
                match crate::templates::find_chars(t, seq!['}'], a) {
                    None => seen,
                    Some(e) => {
                        let name = t.subrange(a + 1, e);
                        let seen2 = if name.len() > 0 && !seen.contains(name) { seen.push(name) } else { seen };
                        brace_names_from(t, e + 1, seen2)
                    },
                }
            },
        }
    }
}

impl PromptTemplate {
    /// A template for a format and provider: the default base and example
    /// templates, no system message, at most five examples, no reasoning.
    pub fn new(format_type: FormatType, provider_type: ProviderType) -> (t: Self)
        ensures
            t.base_template@ == default_base_template_text(format_type, provider_type),
            t.system_message is None,
            t.example_template@ == default_example_template_text(format_type),
            t.format_type == format_type,
            t.provider_type == provider_type,
            t.max_examples == Some(5usize),
            !t.include_reasoning,
    {
        let base_template = Self::default_base_template(format_type, provider_type);
        let example_template = Self::default_example_template(format_type);
        PromptTemplate {
            base_template,
            system_message: None,
            example_template,
            format_type,
            provider_type,
            max_examples: Some(5),
            include_reasoning: false,
        }
    }

    /// A template tuned for a provider: OpenAI gets a system message and no
    /// reasoning; Ollama and custom providers get reasoning and at most
    /// three examples.
    pub fn for_provider(provider_type: ProviderType, format_type: FormatType) -> (t: Self)
        ensures
            t.base_template@ == default_base_template_text(format_type, provider_type),
            t.example_template@ == default_example_template_text(format_type),
            t.format_type == format_type,
            t.provider_type == provider_type,
            provider_type == ProviderType::OpenAI ==> (t.system_message matches Some(m) && m@
                == "You are an expert information extraction assistant. Extract structured information exactly as shown in the examples."@
                && !t.include_reasoning && t.max_examples == Some(5usize)),
            provider_type != ProviderType::OpenAI ==> t.system_message is None && t.include_reasoning
                && t.max_examples == Some(3usize),
    {
        let mut template = Self::new(format_type, provider_type);
        match provider_type {
            ProviderType::OpenAI => {
                template.system_message = Some(
                    "You are an expert information extraction assistant. Extract structured information exactly as shown in the examples.".to_string(),
                );
                template.include_reasoning = false;
            },
            ProviderType::Ollama => {
                template.include_reasoning = true;
                template.max_examples = Some(3);
            },
            ProviderType::Custom => {
                template.max_examples = Some(3);
                template.include_reasoning = true;
            },
        }
        template
    }

    /// Sets the most examples included.
    pub fn with_max_examples(self, max: usize) -> (t: Self)
        ensures
            t == (PromptTemplate { max_examples: Some(max), ..self }),
    {
        let mut t = self;
        t.max_examples = Some(max);
        t
    }

    /// Sets the system message.
    pub fn with_system_message(self, message: String) -> (t: Self)
        ensures
            t == (PromptTemplate { system_message: Some(message), ..self }),
    {
        let mut t = self;
        t.system_message = Some(message);
        t
    }

    /// Turns reasoning on or off.
    pub fn with_reasoning(self, enable: bool) -> (t: Self)
        ensures
            t == (PromptTemplate { include_reasoning: enable, ..self }),
    {
        let mut t = self;
        t.include_reasoning = enable;
        t
    }

    /// Sets the base template.
    pub fn with_base_template(self, template: String) -> (t: Self)
        ensures
            t == (PromptTemplate { base_template: template, ..self }),
    {
        let mut t = self;
        t.base_template = template;
        t
    }

    /// The default base template; see [`default_base_template_text`].
    pub fn default_base_template(format_type: FormatType, provider_type: ProviderType) -> (r: String)
        ensures
            r@ == default_base_template_text(format_type, provider_type),
    {
        let include_reasoning = match provider_type {
            ProviderType::Ollama | ProviderType::Custom => true,
            ProviderType::OpenAI => false,
        };
        let builder = TemplateBuilder::new(format_type).with_custom_examples_section("{examples}{reasoning}{schema_hint}").with_reasoning(
            include_reasoning,
        );
        builder.build()
    }

    /// The default example layout; see [`default_example_template_text`].
    pub fn default_example_template(format_type: FormatType) -> (r: String)
        ensures
            r@ == default_example_template_text(format_type),
    {
        match format_type {
            FormatType::Json => "Input: {input}\nOutput: {output_json}\n".to_string(),
            FormatType::Yaml => "Input: {input}\nOutput:\n{output_yaml}\n".to_string(),
        }
    }

    /// The examples section; see [`examples_outcome`].
    pub fn format_examples(&self, examples: &[ExampleData]) -> (r: LangExtractResult<String>)
        ensures
            examples_result(self.format_type, self.max_examples, examples@, r),
    {
        let formatter = match self.max_examples {
            Some(max) => ExampleFormatter::new(self.format_type).with_max_examples(max),
            None => ExampleFormatter::new(self.format_type),
        };
        formatter.format_examples(examples)
    }

    /// Fills `template` with the given parts; see [`substitution_result`].
    fn fill(
        &self,
        template: &str,
        task_description: &str,
        input_text: &str,
        additional_context: &Option<String>,
        examples: &[ExampleData],
        schema_hint: &Option<String>,
        custom: &Variables,
    ) -> (r: LangExtractResult<String>)
        ensures
            substitution_result(
                *self,
                template@,
                task_description@,
                input_text@,
                opt_view(*additional_context),
                examples@,
                opt_view(*schema_hint),
                custom.values(),
                r,
            ),
    {
        let ghost task = task_description@;
        let ghost input = input_text@;
        let ghost ctx = opt_view(*additional_context);
        let ghost hint = opt_view(*schema_hint);
        let ghost reasoning = self.include_reasoning;
        let mut variables = Variables::new();
        proof {
            reveal_strlit("task_description");
            reveal_strlit("input_text");
            reveal_strlit("additional_context");
            reveal_strlit("examples");
            reveal_strlit("reasoning");
            reveal_strlit("schema_hint");
            assert("task_description"@.len() == 16);
            assert("input_text"@.len() == 10);
            assert("additional_context"@.len() == 18);
            assert("examples"@.len() == 8);
            assert("reasoning"@.len() == 9);
            assert("schema_hint"@.len() == 11);
        }
        variables.insert("task_description".to_string(), task_description.to_string());
        let ghost s1 = |n: Seq<char>| if n == "task_description"@ { Some(task) } else { None::<Seq<char>> };
        assert forall|n: Seq<char>| #[trigger] variables.value_of(n) == s1(n) by {}
        variables.insert("input_text".to_string(), input_text.to_string());
        let ghost s2 = |n: Seq<char>| if n == "input_text"@ { Some(input) } else { s1(n) };
        assert forall|n: Seq<char>| #[trigger] variables.value_of(n) == s2(n) by {}
        let context_value = match additional_context {
            Some(context_text) => {
                let mut v = String::new();
                push_str(&mut v, "\n\nAdditional Context: ");
                push_str(&mut v, context_text.as_str());
                push_str(&mut v, "\n");
                proof {
                    assert(v@ =~= "\n\nAdditional Context: "@ + context_text@ + "\n"@);
                }
                v
            },
            None => {
                let v = String::new();
                proof {
                    assert(v@ =~= Seq::<char>::empty());
                }
                v
            },
        };
        let ghost cv = context_value@;
        variables.insert("additional_context".to_string(), context_value);
        let ghost s3 = |n: Seq<char>| if n == "additional_context"@ { Some(cv) } else { s2(n) };
        assert forall|n: Seq<char>| #[trigger] variables.value_of(n) == s3(n) by {}
        let examples_text = match self.format_examples(examples) {
            Ok(t) => t,
            Err(e) => return Err(e),
        };
        let ghost ex = examples_text@;
        variables.insert("examples".to_string(), examples_text);
        let ghost s4 = |n: Seq<char>| if n == "examples"@ { Some(ex) } else { s3(n) };
        assert forall|n: Seq<char>| #[trigger] variables.value_of(n) == s4(n) by {}
        let reasoning_value = if self.include_reasoning {
            "\n\nPlease think through this step by step before providing your answer.".to_string()
        } else {
            let v = String::new();
            proof {
                assert(v@ =~= Seq::<char>::empty());
            }
            v
        };
        let ghost rv = reasoning_value@;
        variables.insert("reasoning".to_string(), reasoning_value);
        let ghost s5 = |n: Seq<char>| if n == "reasoning"@ { Some(rv) } else { s4(n) };
        assert forall|n: Seq<char>| #[trigger] variables.value_of(n) == s5(n) by {}
        let hint_value = match schema_hint {
            Some(h) => {
                let mut v = String::new();
                push_str(&mut v, "\n\nSchema guidance: ");
                push_str(&mut v, h.as_str());
                push_str(&mut v, "\n");
                proof {
                    assert(v@ =~= "\n\nSchema guidance: "@ + h@ + "\n"@);
                }
                v
            },
            None => {
                let v = String::new();
                proof {
                    assert(v@ =~= Seq::<char>::empty());
                }
                v
            },
        };
        let ghost hv = hint_value@;
        variables.insert("schema_hint".to_string(), hint_value);
        let ghost s6 = |n: Seq<char>| if n == "schema_hint"@ { Some(hv) } else { s5(n) };
        assert forall|n: Seq<char>| #[trigger] variables.value_of(n) == s6(n) by {}
        let ghost builtin = prompt_values(reasoning, task, input, ctx, ex, hint, |n: Seq<char>| None::<Seq<char>>);
        assert(cv == match ctx {
            Some(c) => "\n\nAdditional Context: "@ + c + "\n"@,
            None => Seq::<char>::empty(),
        });
        assert(rv == if reasoning {
            "\n\nPlease think through this step by step before providing your answer."@
        } else {
            Seq::<char>::empty()
        });
        assert(hv == match hint {
            Some(h) => "\n\nSchema guidance: "@ + h + "\n"@,
            None => Seq::<char>::empty(),
        });
        assert forall|n: Seq<char>| #[trigger] variables.value_of(n) == builtin(n) by {
            assert(variables.value_of(n) == s6(n));
            if n == "task_description"@ {
                assert(s6(n) == Some(task));
            } else if n == "input_text"@ {
                assert(s6(n) == Some(input));
            } else if n == "additional_context"@ {
                assert(s6(n) == Some(cv));
            } else if n == "examples"@ {
                assert(s6(n) == Some(ex));
            } else if n == "reasoning"@ {
                assert(s6(n) == Some(rv));
            } else if n == "schema_hint"@ {
                assert(s6(n) == Some(hv));
            } else {
                assert(s6(n) is None);
            }
        }
        let n = custom.len();
        let mut i: usize = 0;
        while i < n
            invariant
                n == custom.bindings().len(),
                i <= n,
                forall|name: Seq<char>| #[trigger] variables.value_of(name) == match lookup(custom.bindings().subrange(0, i as int), name) {
                    Some(v) => Some(v@),
                    None => builtin(name),
                },
            decreases n - i,
        {
            let (key, value) = custom.entry(i);
            let ghost before = variables;
            proof {
                assert(custom.bindings().subrange(0, i + 1).drop_last() =~= custom.bindings().subrange(0, i as int));
            }
            variables.insert(key.clone(), value.clone());
            i = i + 1;
        }
        proof {
            assert(custom.bindings().subrange(0, n as int) =~= custom.bindings());
            assert forall|name: Seq<char>| #[trigger] variables.value_of(name) == prompt_values(
                reasoning,
                task,
                input,
                ctx,
                ex,
                hint,
                custom.values(),
            )(name) by {
                custom.lemma_value_of(name);
            }
            assert(variables.values() =~= prompt_values(reasoning, task, input, ctx, ex, hint, custom.values()));
        }
        let engine = TemplateEngine::new();
        proof {
            reveal_strlit("{");
        }
        engine.render(template, &variables)
    }

    /// Fills `template` for `context`; see [`substitution_result`].
    fn substitute_variables(&self, template: &str, context: &PromptContext) -> (r: LangExtractResult<String>)
        ensures
            substitution_result(
                *self,
                template@,
                context.task_description@,
                context.input_text@,
                opt_view(context.additional_context),
                context.examples@,
                opt_view(context.schema_hint),
                context.variables.values(),
                r,
            ),
    {
        self.fill(
            template,
            context.task_description.as_str(),
            context.input_text.as_str(),
            &context.additional_context,
            context.examples.as_slice(),
            &context.schema_hint,
            &context.variables,
        )
    }

    /// The prompt for `context`: the base template filled in; see
    /// [`substitution_result`].
    pub fn render(&self, context: &PromptContext) -> (r: LangExtractResult<String>)
        ensures
            substitution_result(
                *self,
                self.base_template@,
                context.task_description@,
                context.input_text@,
                opt_view(context.additional_context),
                context.examples@,
                opt_view(context.schema_hint),
                context.variables.values(),
                r,
            ),
    {
        self.substitute_variables(self.base_template.as_str(), context)
    }
}


/// The text holds `pattern`.
pub open spec fn contains_text(t: Seq<char>, pattern: Seq<char>) -> bool {
    crate::templates::find_chars(t, pattern, 0) is Some
}

/// What checking a base template gives: an error naming the first of the
/// `{task_description}` and `{input_text}` placeholders it lacks, else success.
pub open spec fn validation_outcome(t: Seq<char>, r: LangExtractResult<()>) -> bool {
    if !contains_text(t, "{task_description}"@) {
        r matches Err(LangExtractError::InvalidInput(m)) && m@ == "Invalid template syntax: "@
            + "Base template must contain {task_description} placeholder"@
    } else if !contains_text(t, "{input_text}"@) {
        r matches Err(LangExtractError::InvalidInput(m)) && m@ == "Invalid template syntax: "@
            + "Base template must contain {input_text} placeholder"@
    } else {
        r is Ok
    }
}

fn text_contains(t: &str, pattern: &str) -> (r: bool)
    ensures
        r == contains_text(t@, pattern@),
{
    let tc = chars_of(t);
    let pc = chars_of(pattern);
    crate::templates::find_chars_from(&tc, &pc, 0).is_some()
}

impl PromptTemplate {
    /// Checks that the base template has the `{task_description}` and
    /// `{input_text}` placeholders.
    pub fn validate(&self) -> (r: LangExtractResult<()>)
        ensures
            validation_outcome(self.base_template@, r),
    {
        if !text_contains(self.base_template.as_str(), "{task_description}") {
            let err = TemplateError::InvalidSyntax {
                message: "Base template must contain {task_description} placeholder".to_string(),
            };
            return Err(err.into_error());
        }
        if !text_contains(self.base_template.as_str(), "{input_text}") {
            let err = TemplateError::InvalidSyntax {
                message: "Base template must contain {input_text} placeholder".to_string(),
            };
            return Err(err.into_error());
        }
        Ok(())
    }

    /// The variables the template needs: `task_description`, `input_text`,
    /// then the other names in braces in the base template; see
    /// [`brace_names_from`].
    pub fn required_variables(&self) -> (r: Vec<String>)
        ensures
            r@.map_values(|s: String| s@) == brace_names_from(
                self.base_template@,
                0,
                seq!["task_description"@, "input_text"@],
            ),
    {
        let t = chars_of(self.base_template.as_str());
        let mut open: Vec<char> = Vec::new();
        open.push('{');
        let mut close: Vec<char> = Vec::new();
        close.push('}');
        let mut vars: Vec<String> = Vec::new();
        vars.push("task_description".to_string());
        vars.push("input_text".to_string());
        proof {
            assert(open@ =~= seq!['{']);
            assert(close@ =~= seq!['}']);
            assert(vars@.map_values(|s: String| s@) =~= seq!["task_description"@, "input_text"@]);
        }
        let mut i: usize = 0;
        while i < t.len()
            invariant
                open@ == seq!['{'],
                close@ == seq!['}'],
                t@ == self.base_template@,
                brace_names_from(t@, 0, seq!["task_description"@, "input_text"@]) == brace_names_from(
                    t@,
                    i as int,
                    vars@.map_values(|s: String| s@),
                ),
            decreases t@.len() - i,
        {
            let ghost seen = vars@.map_values(|s: String| s@);
            proof {
                crate::templates::lemma_find_chars(t@, open@, i as int);
            }
            match crate::templates::find_chars_from(&t, &open, i) {
                Some(start) => {
                    proof {
                        crate::templates::lemma_find_chars(t@, close@, start as int);
                    }
                    match crate::templates::find_chars_from(&t, &close, start) {
                        Some(end) => {
                            proof {
                                assert(t@.subrange(start as int, start + 1)[0] == '{');
                                assert(t@.subrange(end as int, end + 1)[0] == '}');
                            }
                            let name = crate::templates::string_of_chars(&t, start + 1, end);
                            let mut present = false;
                            let mut k: usize = 0;
                            while k < vars.len()
                                invariant
                                    k <= vars@.len(),
                                    seen == vars@.map_values(|s: String| s@),
                                    present == (exists|j: int| 0 <= j < k && seen[j] == name@),
                                decreases vars@.len() - k,
                            {
                                proof {
                                    assert(seen[k as int] == vars@[k as int]@);
                                }
                                if crate::data::strings_equal(vars[k].as_str(), name.as_str()) {
                                    present = true;
                                }
                                k = k + 1;
                            }
                            proof {
                                if present {
                                    let j = choose|j: int| 0 <= j < k && seen[j] == name@;
                                    assert(seen.contains(name@));
                                } else if seen.contains(name@) {
                                    let j = choose|j: int| 0 <= j < seen.len() && seen[j] == name@;
                                    assert(false);
                                }
                            }
                            if !name.as_str().is_empty() && !present {
                                vars.push(name);
                                proof {
                                    assert(vars@.map_values(|s: String| s@) =~= seen.push(name@));
                                }
                            }
                            i = end + 1;
                        },
                        None => {
                            i = t.len();
                        },
                    }
                },
                None => {
                    i = t.len();
                },
            }
        }
        vars
    }
}

/// A prompt template with a description and examples kept alongside.
#[derive(Debug, Clone)]
pub struct PromptTemplateStructured {
    /// What to extract.
    pub description: Option<String>,
    /// Worked examples.
    pub examples: Vec<ExampleData>,
    template: PromptTemplate,
}

/// Rendering prompt templates.
pub trait TemplateRenderer {
    /// The prompt for a context.
    fn render(&self, context: &PromptContext) -> LangExtractResult<String>;

    /// Checks the template's structure.
    fn validate(&self) -> LangExtractResult<()>;

    /// The variables the template needs.
    fn required_variables(&self) -> Vec<String>;
}

impl TemplateRenderer for PromptTemplate {
    /// See [`PromptTemplate::render`].
    fn render(&self, context: &PromptContext) -> (r: LangExtractResult<String>)
        ensures
            substitution_result(
                *self,
                self.base_template@,
                context.task_description@,
                context.input_text@,
                opt_view(context.additional_context),
                context.examples@,
                opt_view(context.schema_hint),
                context.variables.values(),
                r,
            ),
    {
        PromptTemplate::render(self, context)
    }

    /// See [`PromptTemplate::validate`].
    fn validate(&self) -> (r: LangExtractResult<()>)
        ensures
            validation_outcome(self.base_template@, r),
    {
        PromptTemplate::validate(self)
    }

    /// See [`PromptTemplate::required_variables`].
    fn required_variables(&self) -> (r: Vec<String>)
        ensures
            r@.map_values(|s: String| s@) == brace_names_from(
                self.base_template@,
                0,
                seq!["task_description"@, "input_text"@],
            ),
    {
        PromptTemplate::required_variables(self)
    }
}

impl PromptTemplateStructured {
    /// The description.
    pub closed spec fn desc(&self) -> Option<String> {
        self.description
    }

    /// The examples.
    pub closed spec fn exs(&self) -> Seq<ExampleData> {
        self.examples@
    }

    /// The underlying template.
    pub closed spec fn inner(&self) -> PromptTemplate {
        self.template
    }

    /// A structured template with a description, no examples, and a JSON
    /// template for Ollama.
    pub fn new(description: Option<&str>) -> (t: Self)
        ensures
            t.desc() matches Some(d) ==> description matches Some(x) && d@ == x@,
            t.desc() is None ==> description is None,
            t.exs().len() == 0,
            t.inner().base_template@ == default_base_template_text(FormatType::Json, ProviderType::Ollama),
            t.inner().format_type == FormatType::Json,
            t.inner().provider_type == ProviderType::Ollama,
            t.inner().max_examples == Some(5usize),
            !t.inner().include_reasoning,
            t.inner().system_message is None,
    {
        let description = match description {
            Some(d) => Some(d.to_string()),
            None => None,
        };
        PromptTemplateStructured {
            description,
            examples: Vec::new(),
            template: PromptTemplate::new(FormatType::Json, ProviderType::Ollama),
        }
    }

    /// A structured template with a template tuned for a provider.
    pub fn with_format_and_provider(description: Option<&str>, format_type: FormatType, provider_type: ProviderType) -> (t:
        Self)
        ensures
            t.desc() matches Some(d) ==> description matches Some(x) && d@ == x@,
            t.desc() is None ==> description is None,
            t.exs().len() == 0,
            t.inner().base_template@ == default_base_template_text(format_type, provider_type),
            t.inner().format_type == format_type,
            t.inner().provider_type == provider_type,
            provider_type == ProviderType::OpenAI ==> !t.inner().include_reasoning && t.inner().max_examples == Some(
                5usize,
            ) && t.inner().system_message is Some,
            provider_type != ProviderType::OpenAI ==> t.inner().include_reasoning && t.inner().max_examples == Some(
                3usize,
            ) && t.inner().system_message is None,
    {
        let description = match description {
            Some(d) => Some(d.to_string()),
            None => None,
        };
        PromptTemplateStructured {
            description,
            examples: Vec::new(),
            template: PromptTemplate::for_provider(provider_type, format_type),
        }
    }

    /// The prompt for `input_text`: the template filled with the
    /// description (empty without one), the examples and the context.
    pub fn render(&self, input_text: &str, additional_context: Option<&str>) -> (r: LangExtractResult<String>)
        ensures
            substitution_result(
                self.inner(),
                self.inner().base_template@,
                match self.desc() {
                    Some(d) => d@,
                    None => Seq::<char>::empty(),
                },
                input_text@,
                match additional_context {
                    Some(c) => Some(c@),
                    None => None,
                },
                self.exs(),
                None,
                |n: Seq<char>| None::<Seq<char>>,
                r,
            ),
    {
        let task = match &self.description {
            Some(d) => d.clone(),
            None => String::new(),
        };
        let ctx = match additional_context {
            Some(c) => Some(c.to_string()),
            None => None,
        };
        let hint: Option<String> = None;
        let custom = Variables::new();
        proof {
            if self.desc() is None {
                assert(task@ =~= Seq::<char>::empty());
            }
            assert(custom.values() =~= |n: Seq<char>| None::<Seq<char>>);
        }
        self.template.fill(
            self.template.base_template.as_str(),
            task.as_str(),
            input_text,
            &ctx,
            self.examples.as_slice(),
            &hint,
            &custom,
        )
    }

    /// The underlying template.
    pub fn template(&self) -> (t: &PromptTemplate)
        ensures
            *t == self.inner(),
    {
        &self.template
    }

    /// The underlying template, to change it.
    pub fn template_mut(&mut self) -> (t: &mut PromptTemplate)
        ensures
            *t == old(self).inner(),
            final(self).inner() == *final(t),
            final(self).desc() == old(self).desc(),
            final(self).exs() == old(self).exs(),
    {
        &mut self.template
    }
}

} // verus!
