//! The kinds of language-model provider and their connection settings.

use vstd::prelude::*;
use serde_json::Value;
use crate::text::push_str;
use crate::data::{keys_distinct, lookup, set_entry};

verus! {

/// The kinds of provider.
#[derive(Debug, Clone, Copy, PartialEq, Eq, Structural)]
pub enum ProviderType {
    /// An OpenAI-compatible API.
    OpenAI,
    /// An Ollama server.
    Ollama,
    /// Any other HTTP API.
    Custom,
}

/// The lowercase form of a text, as std's `str::to_lowercase` gives it.
pub uninterp spec fn lowercase(s: Seq<char>) -> Seq<char>;

/// std's `str::to_lowercase`. Stated: the result is [`lowercase`] of the
/// text, and for ASCII letters it maps `A` to `Z` to `a` to `z` and keeps
/// every other ASCII character, as the documentation gives it.
#[verifier::external_body]
pub(crate) fn to_lowercase(s: &str) -> (r: String)
    ensures
        r@ == lowercase(s@),
        (forall|i: int| 0 <= i < s@.len() ==> (#[trigger] s@[i] as u32) < 0x80) ==> r@ == s@.map_values(
            |c: char| if 'A' <= c <= 'Z' { ((c as u32) + 32) as char } else { c },
        ),
{
    s.to_lowercase()
}

/// The name of a provider type.
pub open spec fn provider_name(p: ProviderType) -> Seq<char> {
    match p {
        ProviderType::OpenAI => "openai"@,
        ProviderType::Ollama => "ollama"@,
        ProviderType::Custom => "custom"@,
    }
}

/// The text `Unknown provider type: {s}`.
pub open spec fn unknown_provider_message(s: Seq<char>) -> Seq<char> {
    "Unknown provider type: "@ + s
}

impl ProviderType {
    /// The provider type named by `s` in any letter case.
    pub fn parse(s: &str) -> (r: Result<ProviderType, String>)
        ensures
            lowercase(s@) == "openai"@ ==> r == Ok::<ProviderType, String>(ProviderType::OpenAI),
            lowercase(s@) == "ollama"@ ==> r == Ok::<ProviderType, String>(ProviderType::Ollama),
            lowercase(s@) == "custom"@ ==> r == Ok::<ProviderType, String>(ProviderType::Custom),
            lowercase(s@) != "openai"@ && lowercase(s@) != "ollama"@ && lowercase(s@) != "custom"@ ==> (r matches Err(
                m,
            ) && m@ == unknown_provider_message(s@)),
    {
        let lower = to_lowercase(s);
        proof {
            reveal_strlit("openai");
            reveal_strlit("ollama");
            reveal_strlit("custom");
            assert("openai"@[1] != "ollama"@[1]);
            assert("openai"@[0] != "custom"@[0]);
            assert("ollama"@[0] != "custom"@[0]);
        }
        if crate::data::strings_equal(lower.as_str(), "openai") {
            Ok(ProviderType::OpenAI)
        } else if crate::data::strings_equal(lower.as_str(), "ollama") {
            Ok(ProviderType::Ollama)
        } else if crate::data::strings_equal(lower.as_str(), "custom") {
            Ok(ProviderType::Custom)
        } else {
            let mut m = String::new();
            push_str(&mut m, "Unknown provider type: ");
            push_str(&mut m, s);
            Err(m)
        }
    }

    /// The name of the provider type: `openai`, `ollama` or `custom`.
    pub fn to_string(&self) -> (r: String)
        ensures
            r@ == provider_name(*self),
    {
        match self {
            ProviderType::OpenAI => "openai".to_string(),
            ProviderType::Ollama => "ollama".to_string(),
            ProviderType::Custom => "custom".to_string(),
        }
    }
}

impl std::str::FromStr for ProviderType {
    type Err = String;

    fn from_str(s: &str) -> (r: Result<Self, Self::Err>)
        ensures
            lowercase(s@) == "openai"@ ==> r == Ok::<ProviderType, String>(ProviderType::OpenAI),
            lowercase(s@) == "ollama"@ ==> r == Ok::<ProviderType, String>(ProviderType::Ollama),
            lowercase(s@) == "custom"@ ==> r == Ok::<ProviderType, String>(ProviderType::Custom),
            lowercase(s@) != "openai"@ && lowercase(s@) != "ollama"@ && lowercase(s@) != "custom"@ ==> (r matches Err(
                m,
            ) && m@ == unknown_provider_message(s@)),
    {
        ProviderType::parse(s)
    }
}

/// How to reach a provider.
#[derive(Debug, Clone)]
pub struct ProviderConfig {
    /// The kind of provider.
    pub provider_type: ProviderType,
    /// The base URL of the API.
    pub base_url: String,
    /// The model to use.
    pub model: String,
    /// The API key, when one is needed.
    pub api_key: Option<String>,
    /// Extra HTTP headers, each name once.
    pub headers: Vec<(String, String)>,
    /// Provider-specific parameters, each name once.
    pub extra_params: Vec<(String, Value)>,
}

impl ProviderConfig {
    /// An OpenAI configuration.
    pub fn openai(model: &str, api_key: Option<String>) -> (c: Self)
        ensures
            c.provider_type == ProviderType::OpenAI,
            c.base_url@ == "https://api.openai.com/v1"@,
            c.model@ == model@,
            c.api_key == api_key,
            c.headers@.len() == 0,
            c.extra_params@.len() == 0,
    {
        ProviderConfig {
            provider_type: ProviderType::OpenAI,
            base_url: "https://api.openai.com/v1".to_string(),
            model: model.to_string(),
            api_key,
            headers: Vec::new(),
            extra_params: Vec::new(),
        }
    }

    /// An Azure OpenAI configuration: the deployment's URL, the deployment
    /// as model, and an `api-version` header (`2024-02-15-preview` when
    /// none is given).
    pub fn azure_openai(resource_name: &str, deployment_name: &str, api_version: Option<&str>, api_key: Option<String>) -> (c:
        Self)
        ensures
            c.provider_type == ProviderType::OpenAI,
            c.base_url@ == "https://"@ + resource_name@ + ".openai.azure.com/openai/deployments/"@ + deployment_name@,
            c.model@ == deployment_name@,
            c.api_key == api_key,
            c.headers@.len() == 1,
            c.headers@[0].0@ == "api-version"@,
            c.headers@[0].1@ == match api_version {
                Some(v) => v@,
                None => "2024-02-15-preview"@,
            },
            c.extra_params@.len() == 0,
    {
        let version = match api_version {
            Some(v) => v,
            None => "2024-02-15-preview",
        };
        let mut base_url = String::new();
        push_str(&mut base_url, "https://");
        push_str(&mut base_url, resource_name);
        push_str(&mut base_url, ".openai.azure.com/openai/deployments/");
        push_str(&mut base_url, deployment_name);
        let mut headers: Vec<(String, String)> = Vec::new();
        headers.push(("api-version".to_string(), version.to_string()));
        ProviderConfig {
            provider_type: ProviderType::OpenAI,
            base_url,
            model: deployment_name.to_string(),
            api_key,
            headers,
            extra_params: Vec::new(),
        }
    }

    /// A configuration for an OpenAI-compatible API at `base_url`.
    pub fn openai_compatible(base_url: &str, model: &str, api_key: Option<String>) -> (c: Self)
        ensures
            c.provider_type == ProviderType::OpenAI,
            c.base_url@ == base_url@,
            c.model@ == model@,
            c.api_key == api_key,
            c.headers@.len() == 0,
            c.extra_params@.len() == 0,
    {
        ProviderConfig {
            provider_type: ProviderType::OpenAI,
            base_url: base_url.to_string(),
            model: model.to_string(),
            api_key,
            headers: Vec::new(),
            extra_params: Vec::new(),
        }
    }

    /// An Ollama configuration, at `http://localhost:11434` unless another
    /// URL is given.
    pub fn ollama(model: &str, base_url: Option<String>) -> (c: Self)
        ensures
            c.provider_type == ProviderType::Ollama,
            c.base_url@ == match base_url {
                Some(u) => u@,
                None => "http://localhost:11434"@,
            },
            c.model@ == model@,
            c.api_key is None,
            c.headers@.len() == 0,
            c.extra_params@.len() == 0,
    {
        let url = match base_url {
            Some(u) => u,
            None => "http://localhost:11434".to_string(),
        };
        ProviderConfig {
            provider_type: ProviderType::Ollama,
            base_url: url,
            model: model.to_string(),
            api_key: None,
            headers: Vec::new(),
            extra_params: Vec::new(),
        }
    }

    /// A configuration for a custom API.
    pub fn custom(base_url: &str, model: &str) -> (c: Self)
        ensures
            c.provider_type == ProviderType::Custom,
            c.base_url@ == base_url@,
            c.model@ == model@,
            c.api_key is None,
            c.headers@.len() == 0,
            c.extra_params@.len() == 0,
    {
        ProviderConfig {
            provider_type: ProviderType::Custom,
            base_url: base_url.to_string(),
            model: model.to_string(),
            api_key: None,
            headers: Vec::new(),
            extra_params: Vec::new(),
        }
    }

    /// Sets the API key.
    pub fn with_api_key(self, api_key: String) -> (c: Self)
        ensures
            c.api_key == Some(api_key),
            c.provider_type == self.provider_type,
            c.base_url == self.base_url,
            c.model == self.model,
            c.headers == self.headers,
            c.extra_params == self.extra_params,
    {
        let mut c = self;
        c.api_key = Some(api_key);
        c
    }

    /// Sets a header, replacing an earlier value for the same name.
    pub fn with_header(self, key: String, value: String) -> (c: Self)
        requires
            keys_distinct(self.headers@),
        ensures
            keys_distinct(c.headers@),
            lookup(c.headers@, key@) == Some(value),
            forall|k: Seq<char>| k != key@ ==> lookup(c.headers@, k) == lookup(self.headers@, k),
            c.provider_type == self.provider_type,
            c.base_url == self.base_url,
            c.model == self.model,
            c.api_key == self.api_key,
            c.extra_params == self.extra_params,
    {
        let mut c = self;
        set_entry(&mut c.headers, key, value);
        c
    }

    /// Sets an extra parameter, replacing an earlier value for the same name.
    pub fn with_extra_param(self, key: String, value: Value) -> (c: Self)
        requires
            keys_distinct(self.extra_params@),
        ensures
            keys_distinct(c.extra_params@),
            lookup(c.extra_params@, key@) == Some(value),
            forall|k: Seq<char>| k != key@ ==> lookup(c.extra_params@, k) == lookup(self.extra_params@, k),
            c.provider_type == self.provider_type,
            c.base_url == self.base_url,
            c.model == self.model,
            c.api_key == self.api_key,
            c.headers == self.headers,
    {
        let mut c = self;
        set_entry(&mut c.extra_params, key, value);
        c
    }

    /// Sets the base URL.
    pub fn with_base_url(self, base_url: String) -> (c: Self)
        ensures
            c.base_url == base_url,
            c.provider_type == self.provider_type,
            c.model == self.model,
            c.api_key == self.api_key,
            c.headers == self.headers,
            c.extra_params == self.extra_params,
    {
        let mut c = self;
        c.base_url = base_url;
        c
    }
}

/// Whether a provider's output has to be read out of code fences: as set
/// explicitly, when it is; else not for OpenAI with a schema applied, and
/// yes otherwise.
pub fn requires_fence_output(fence_output_override: Option<bool>, provider_type: ProviderType, has_schema: bool) -> (r: bool)
    ensures
        r == match fence_output_override {
            Some(o) => o,
            None => !(provider_type == ProviderType::OpenAI && has_schema),
        },
{
    if let Some(override_val) = fence_output_override {
        return override_val;
    }
    match provider_type {
        ProviderType::OpenAI if has_schema => false,
        _ => true,
    }
}

/// The starter configuration file for a provider kind.
pub open spec fn config_template_text(provider: ProviderType) -> Seq<char> {
    match provider {
        ProviderType::OpenAI => "# OpenAI Configuration\nmodel: \"gpt-4o-mini\"\nprovider: \"openai\"\ntemperature: 0.3\nmax_char_buffer: 8000\nmax_workers: 6\nbatch_length: 4\n"@,
        ProviderType::Ollama => "# Ollama Configuration\nmodel: \"mistral\"\nprovider: \"ollama\"\nmodel_url: \"http://localhost:11434\"\ntemperature: 0.3\nmax_char_buffer: 8000\nmax_workers: 6\nbatch_length: 4\n"@,
        ProviderType::Custom => "# Custom Provider Configuration\nmodel: \"your-model\"\nprovider: \"custom\"\nmodel_url: \"http://localhost:8000\"\ntemperature: 0.3\nmax_char_buffer: 8000\nmax_workers: 6\nbatch_length: 4\n"@,
    }
}

/// The starter configuration file for a provider kind: model, provider,
/// server address where one is needed, and processing settings.
pub fn generate_config_template(provider: ProviderType) -> (r: String)
    ensures
        r@ == config_template_text(provider),
{
    match provider {
        ProviderType::OpenAI => "# OpenAI Configuration\nmodel: \"gpt-4o-mini\"\nprovider: \"openai\"\ntemperature: 0.3\nmax_char_buffer: 8000\nmax_workers: 6\nbatch_length: 4\n".to_string(),
        ProviderType::Ollama => "# Ollama Configuration\nmodel: \"mistral\"\nprovider: \"ollama\"\nmodel_url: \"http://localhost:11434\"\ntemperature: 0.3\nmax_char_buffer: 8000\nmax_workers: 6\nbatch_length: 4\n".to_string(),
        ProviderType::Custom => "# Custom Provider Configuration\nmodel: \"your-model\"\nprovider: \"custom\"\nmodel_url: \"http://localhost:8000\"\ntemperature: 0.3\nmax_char_buffer: 8000\nmax_workers: 6\nbatch_length: 4\n".to_string(),
    }
}

} // verus!
