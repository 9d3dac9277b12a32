//! Choosing and addressing the LLM providers: which client serves chat and
//! which serves embeddings, the Vertex endpoint, the layer catalogue given to
//! the fact extractor, and the JSON object cut out of a chatty reply.
use vstd::prelude::*;
use crate::config::{LlmConfig, LlmProvider};
use crate::models::CclDefinition;
use crate::text::{chars_of, copy_opt_string, copy_string, join_with, owned, seq_join, string_from_chars, views};

verus! {

/// OpenAI's API root, used when no base URL is configured.
pub const OPENAI_BASE_URL: &'static str = "https://api.openai.com/v1";

/// Vertex region used when `embedding_location` is unset.
pub const DEFAULT_VERTEX_LOCATION: &'static str = "us-central1";

/// The reply used in place of an empty extractor answer: no facts.
pub const EMPTY_FACTS_JSON: &'static str = "{\"facts\": []}";

/// The client to build for one half (chat or embeddings) of the LLM access.
#[derive(Debug)]
pub enum ClientSpec {
    /// An OpenAI-compatible endpoint.
    OpenAi { model: String, embedding_model: String, base_url: String },
    Gemini { model: String, embedding_model: String },
    Anthropic { model: String },
    /// Vertex AI embeddings under a GCP project and region.
    Vertex { model: String, project: String, location: String },
}

/// `r` is the client for `provider`, with chat model `model`, OpenAI base
/// URL `base_url` and (for Vertex) model `vertex_model`, under `config`.
pub open spec fn client_for(
    config: LlmConfig,
    provider: LlmProvider,
    base_url: Option<String>,
    vertex_model: Seq<char>,
    r: ClientSpec,
) -> bool {
    match provider {
        LlmProvider::Openai | LlmProvider::Custom => r matches ClientSpec::OpenAi {
            model,
            embedding_model,
            base_url: url,
        } && model@ == config.model@ && embedding_model@ == config.embedding_model@ && url@ == match base_url {
            Some(u) => u@,
            None => OPENAI_BASE_URL@,
        },
        LlmProvider::Gemini => r matches ClientSpec::Gemini { model, embedding_model } && model@
            == config.model@ && embedding_model@ == config.embedding_model@,
        LlmProvider::Anthropic => r matches ClientSpec::Anthropic { model } && model@ == config.model@,
        LlmProvider::Vertex => r matches ClientSpec::Vertex { model, project, location } && model@
            == vertex_model && project@ == match config.embedding_project {
            Some(p) => p@,
            None => Seq::<char>::empty(),
        } && location@ == match config.embedding_location {
            Some(l) => l@,
            None => DEFAULT_VERTEX_LOCATION@,
        },
    }
}

/// `r` is the client that serves embeddings under `config`: the effective
/// embedding provider, the embedding base URL (else the chat one) and, on
/// Vertex, the embedding model.
pub open spec fn embedding_client_for(config: LlmConfig, r: ClientSpec) -> bool {
    client_for(
        config,
        match config.embedding_provider {
            Some(p) => p,
            None => config.provider,
        },
        match config.embedding_base_url {
            Some(u) => Some(u),
            None => config.base_url,
        },
        config.embedding_model@,
        r,
    )
}

/// The client for `provider`.
fn build_client(
    config: &LlmConfig,
    provider: LlmProvider,
    base_url: Option<String>,
    vertex_model: &String,
) -> (r: ClientSpec)
    ensures
        client_for(*config, provider, base_url, vertex_model@, r),
{
    match provider {
        LlmProvider::Openai | LlmProvider::Custom => ClientSpec::OpenAi {
            model: copy_string(&config.model),
            embedding_model: copy_string(&config.embedding_model),
            base_url: match base_url {
                Some(u) => u,
                None => owned(OPENAI_BASE_URL),
            },
        },
        LlmProvider::Gemini => ClientSpec::Gemini {
            model: copy_string(&config.model),
            embedding_model: copy_string(&config.embedding_model),
        },
        LlmProvider::Anthropic => ClientSpec::Anthropic { model: copy_string(&config.model) },
        LlmProvider::Vertex => ClientSpec::Vertex {
            model: copy_string(vertex_model),
            project: match &config.embedding_project {
                Some(p) => copy_string(p),
                None => String::new(),
            },
            location: match &config.embedding_location {
                Some(l) => copy_string(l),
                None => owned(DEFAULT_VERTEX_LOCATION),
            },
        },
    }
}

/// The client that serves chat (extraction, descriptions, compression): the
/// configured provider with the chat model and base URL.
pub fn chat_client(config: &LlmConfig) -> (r: ClientSpec)
    ensures
        client_for(*config, config.provider, config.base_url, config.model@, r),
{
    build_client(config, config.provider, copy_opt_string(&config.base_url), &config.model)
}

/// The client that serves embeddings: the effective embedding provider, with
/// the embedding base URL (falling back to the chat base URL) and, on Vertex,
/// the embedding model.
pub fn embed_client(config: &LlmConfig) -> (r: ClientSpec)
    ensures
        client_for(
            *config,
            match config.embedding_provider {
                Some(p) => p,
                None => config.provider,
            },
            match config.embedding_base_url {
                Some(u) => Some(u),
                None => config.base_url,
            },
            config.embedding_model@,
            r,
        ),
        embedding_client_for(*config, r),
{
    let provider = *config.effective_embedding_provider();
    let base_url = match &config.embedding_base_url {
        Some(u) => Some(copy_string(u)),
        None => copy_opt_string(&config.base_url),
    };
    build_client(config, provider, base_url, &config.embedding_model)
}

/// The Vertex `:predict` embeddings endpoint. `global` uses the unprefixed
/// host; any other region pins the data to `{region}-aiplatform.googleapis.com`.
pub open spec fn vertex_predict_url(location: Seq<char>, project: Seq<char>, model: Seq<char>) -> Seq<char> {
    let host = if location == "global"@ {
        "aiplatform.googleapis.com"@
    } else {
        location + "-aiplatform.googleapis.com"@
    };
    "https://"@ + host + "/v1/projects/"@ + project + "/locations/"@ + location
        + "/publishers/google/models/"@ + model + ":predict"@
}

/// The Vertex `:predict` URL for `model` in `project` and `location`.
pub fn predict_url(location: &str, project: &str, model: &str) -> (r: String)
    ensures
        r@ == vertex_predict_url(location@, project@, model@),
{
    let mut url = owned("https://");
    if crate::text::same_text(location, "global") {
        url.append("aiplatform.googleapis.com");
    } else {
        url.append(location);
        url.append("-aiplatform.googleapis.com");
    }
    url.append("/v1/projects/");
    url.append(project);
    url.append("/locations/");
    url.append(location);
    url.append("/publishers/google/models/");
    url.append(model);
    url.append(":predict");
    url
}

/// One line of the layer catalogue: `- 'name' (description)`.
pub open spec fn catalog_line(d: CclDefinition) -> Seq<char> {
    "- '"@ + d.name@ + "' ("@ + d.description@ + ")"@
}

/// The catalogue of layers given to the extractor: one line per layer.
pub open spec fn ccl_catalog_text(defs: Seq<CclDefinition>) -> Seq<char> {
    seq_join(defs.map_values(|d: CclDefinition| catalog_line(d)), seq!['\n'])
}

/// The catalogue of the layers in `defs`, one line per layer, in order.
pub fn ccl_catalog(defs: &Vec<CclDefinition>) -> (r: String)
    ensures
        r@ == ccl_catalog_text(defs@),
{
    let mut lines: Vec<String> = Vec::new();
    let n = defs.len();
    for i in 0..n
        invariant
            n == defs@.len(),
            views(lines@) == defs@.take(i as int).map_values(|d: CclDefinition| catalog_line(d)),
    {
        let mut line = owned("- '");
        line.append(defs[i].name.as_str());
        line.append("' (");
        line.append(defs[i].description.as_str());
        line.append(")");
        assert(line@ == catalog_line(defs@[i as int]));
        let ghost old_lines = lines@;
        lines.push(line);
        assert(views(lines@) =~= views(old_lines).push(catalog_line(defs@[i as int])));
        assert(defs@.take(i + 1).map_values(|d: CclDefinition| catalog_line(d)) =~= defs@.take(
            i as int,
        ).map_values(|d: CclDefinition| catalog_line(d)).push(catalog_line(defs@[i as int])));
    }
    assert(defs@.take(n as int) =~= defs@);
    let nl = "\n";
    proof {
        reveal_strlit("\n");
    }
    assert(nl@ =~= seq!['\n']);
    join_with(&lines, nl)
}

/// The position of the first `c` in `s`, if any.
pub open spec fn first_index(s: Seq<char>, c: char) -> Option<int> {
    if exists|i: int| 0 <= i < s.len() && s[i] == c {
        Some(choose|i: int| 0 <= i < s.len() && s[i] == c && forall|j: int| 0 <= j < i ==> s[j] != c)
    } else {
        None
    }
}

/// The position of the last `c` in `s`, if any.
pub open spec fn last_index(s: Seq<char>, c: char) -> Option<int> {
    if exists|i: int| 0 <= i < s.len() && s[i] == c {
        Some(choose|i: int| 0 <= i < s.len() && s[i] == c && forall|j: int| i < j < s.len() ==> s[j] != c)
    } else {
        None
    }
}

/// Where the JSON object of an extractor reply starts: at its first `{`, or
/// at the start when it has none.
pub open spec fn json_start(s: Seq<char>) -> int {
    match first_index(s, '{') {
        Some(i) => i,
        None => 0,
    }
}

/// Where the JSON object of an extractor reply ends: after its last `}`, or
/// at the end when it has none.
pub open spec fn json_end(s: Seq<char>) -> int {
    match last_index(s, '}') {
        Some(i) => i + 1,
        None => s.len() as int,
    }
}

/// The text whose JSON object is read: the reply, or the empty fact list
/// when the reply is empty.
pub open spec fn reply_text(reply: Seq<char>) -> Seq<char> {
    if reply.len() == 0 {
        EMPTY_FACTS_JSON@
    } else {
        reply
    }
}

/// Whether the JSON object of `reply` can be cut out: its last `}` does not
/// come before its first `{`.
pub open spec fn json_span_valid(reply: Seq<char>) -> bool {
    json_start(reply_text(reply)) <= json_end(reply_text(reply))
}

proof fn lemma_first_index(s: Seq<char>, c: char, i: int)
    requires
        0 <= i < s.len(),
        s[i] == c,
        forall|j: int| 0 <= j < i ==> s[j] != c,
    ensures
        first_index(s, c) == Some(i),
{
    let k = choose|k: int| 0 <= k < s.len() && s[k] == c && forall|j: int| 0 <= j < k ==> s[j] != c;
    assert(0 <= k < s.len() && s[k] == c && forall|j: int| 0 <= j < k ==> s[j] != c);
    if k < i {
        assert(s[k] != c);
    }
    if i < k {
        assert(s[i] != c);
    }
}

proof fn lemma_last_index(s: Seq<char>, c: char, i: int)
    requires
        0 <= i < s.len(),
        s[i] == c,
        forall|j: int| i < j < s.len() ==> s[j] != c,
    ensures
        last_index(s, c) == Some(i),
{
    let k = choose|k: int| 0 <= k < s.len() && s[k] == c && forall|j: int| k < j < s.len() ==> s[j] != c;
    assert(0 <= k < s.len() && s[k] == c && forall|j: int| k < j < s.len() ==> s[j] != c);
    if k < i {
        assert(s[i] != c);
    }
    if i < k {
        assert(s[k] != c);
    }
}

/// The span `(start, end)` of the JSON object in `cs`.
fn json_bounds(cs: &Vec<char>) -> (r: (usize, usize))
    ensures
        r.0 == json_start(cs@),
        r.1 == json_end(cs@),
        r.1 <= cs@.len(),
{
    let n = cs.len();
    let mut start: usize = 0;
    let mut found = false;
    let mut i: usize = 0;
    while i < n
        invariant_except_break
            n == cs@.len(),
            i <= n,
            !found,
            forall|j: int| 0 <= j < i ==> cs@[j] != '{',
        ensures
            n == cs@.len(),
            found ==> start < n && cs@[start as int] == '{' && forall|j: int| 0 <= j < start ==> cs@[j] != '{',
            !found ==> forall|j: int| 0 <= j < n ==> cs@[j] != '{',
        decreases n - i,
    {
        if cs[i] == '{' {
            start = i;
            found = true;
            break;
        }
        i = i + 1;
    }
    if found {
        proof {
            lemma_first_index(cs@, '{', start as int);
        }
    } else {
        assert(!(exists|j: int| 0 <= j < cs@.len() && cs@[j] == '{'));
        start = 0;
    }
    let mut end: usize = n;
    let mut k: usize = n;
    let mut found_end = false;
    while k > 0
        invariant_except_break
            n == cs@.len(),
            k <= n,
            !found_end,
            forall|j: int| k <= j < n ==> cs@[j] != '}',
        ensures
            n == cs@.len(),
            found_end ==> end < n && cs@[end as int] == '}' && forall|j: int| end < j < n ==> cs@[j] != '}',
            !found_end ==> forall|j: int| 0 <= j < n ==> cs@[j] != '}',
        decreases k,
    {
        if cs[k - 1] == '}' {
            end = k - 1;
            found_end = true;
            break;
        }
        k = k - 1;
    }
    if found_end {
        proof {
            lemma_last_index(cs@, '}', end as int);
        }
        end = end + 1;
    } else {
        assert(!(exists|j: int| 0 <= j < cs@.len() && cs@[j] == '}'));
        end = n;
    }
    (start, end)
}

/// Whether the JSON object of an extractor reply can be cut out.
pub fn json_span_ok(reply: &str) -> (r: bool)
    ensures
        r == json_span_valid(reply@),
{
    let cs = if reply.is_empty() {
        chars_of(EMPTY_FACTS_JSON)
    } else {
        chars_of(reply)
    };
    let (start, end) = json_bounds(&cs);
    start <= end
}

/// The JSON object of an extractor reply that may chatter around it: from its
/// first `{` through its last `}` (an empty reply reads as no facts).
pub fn json_object_of(reply: &str) -> (r: String)
    requires
        json_span_valid(reply@),
    ensures
        r@ == reply_text(reply@).subrange(json_start(reply_text(reply@)), json_end(reply_text(reply@))),
{
    let cs = if reply.is_empty() {
        chars_of(EMPTY_FACTS_JSON)
    } else {
        chars_of(reply)
    };
    let (start, end) = json_bounds(&cs);
    let mut out: Vec<char> = Vec::new();
    for i in start..end
        invariant
            start <= end <= cs@.len(),
            out@ == cs@.subrange(start as int, i as int),
    {
        out.push(cs[i]);
        assert(cs@.subrange(start as int, i as int).push(cs@[i as int]) =~= cs@.subrange(
            start as int,
            i + 1,
        ));
    }
    string_from_chars(out.as_slice())
}

} // verus!
