//! Routing of MCP (JSON-RPC over stdio) requests: which tool a call names and
//! the arguments it runs with, every omitted argument filled by its default.
use vstd::prelude::*;
use crate::models::{TimeFilter, DEFAULT_CCL, DEFAULT_TENANT};
use crate::text::{copy_opt_string, copy_string, owned, same_text};

verus! {

/// Default recall breadth for the query tools when the caller omits `k`.
pub const DEFAULT_K: usize = 10;

/// JSON-RPC error code of a request whose method the server does not offer.
pub const METHOD_NOT_FOUND: i64 = -32601;

/// JSON-RPC error code of a line that is not a JSON-RPC request.
pub const PARSE_ERROR: i64 = -32700;

/// A JSON argument value, as far as request routing reads it.
#[derive(Debug)]
pub enum ArgValue {
    /// A JSON string.
    Text(String),
    /// A JSON number without a fractional part.
    Integer(i128),
    /// A JSON array: each element's text when it is a string, `None` otherwise.
    List(Vec<Option<String>>),
    /// Any other JSON value (null, boolean, fractional number, object).
    Other,
}

/// The arguments object of a tool call: its entries (keys unique) and its
/// `time_filter` entry read as a [`TimeFilter`], when it is one.
#[derive(Debug)]
pub struct ToolArgs {
    pub entries: Vec<(String, ArgValue)>,
    pub time_filter: Option<TimeFilter>,
}

/// Which store a memory query searches.
#[derive(Debug, Clone, Copy, PartialEq, Eq, Structural)]
pub enum QueryScope {
    /// Short-term working memory.
    Stm,
    /// The long-term archive.
    Ltm,
}

/// A memory query with every default applied.
#[derive(Debug)]
pub struct QueryRequest {
    pub scope: QueryScope,
    pub tenant: String,
    pub query: String,
    pub k: usize,
    pub time_filter: TimeFilter,
    pub ccl: Vec<String>,
    pub context_key: Option<String>,
}

/// What a request asks the server to do.
#[derive(Debug)]
pub enum McpRoute {
    StoreMemory { tenant_id: String, fact_text: String, tags: Vec<String>, ccl: String },
    PushDialogue { tenant_id: String, session_id: String, new_message: String, ccl: String },
    QueryMemory(QueryRequest),
    RecallLtm(QueryRequest),
    DeleteTenant { tenant_id: String },
    ExportTenant { tenant_id: String },
    MemoryStats,
    Health,
    PlacementDebug { sample: usize },
    StmList { limit: usize, offset: usize, status: Option<String>, contains: Option<String> },
    LtmMap { depth: usize },
    InspectNode {
        id: i64,
        child_limit: Option<usize>,
        child_offset: usize,
        summary_max_chars: Option<usize>,
    },
    Subtree { node: i64, depth: usize },
    TraceDataId { data_id: String },
    /// A tool call answered with a tool error before any work; the error text.
    ToolError(String),
    Initialize,
    ToolsList,
    /// A method the server does not offer; the JSON-RPC error message.
    MethodNotFound(String),
}

/// The value of the first entry keyed `key`.
pub open spec fn arg_of(entries: Seq<(String, ArgValue)>, key: Seq<char>) -> Option<ArgValue>
    decreases entries.len(),
{
    if entries.len() == 0 {
        None
    } else if entries[0].0@ == key {
        Some(entries[0].1)
    } else {
        arg_of(entries.drop_first(), key)
    }
}

/// The argument `key` when it is a string.
pub open spec fn text_arg(args: ToolArgs, key: Seq<char>) -> Option<Seq<char>> {
    match arg_of(args.entries@, key) {
        Some(ArgValue::Text(s)) => Some(s@),
        _ => None,
    }
}

/// The argument `key` when it is a string, else `default`.
pub open spec fn text_or(args: ToolArgs, key: Seq<char>, default: Seq<char>) -> Seq<char> {
    match text_arg(args, key) {
        Some(s) => s,
        None => default,
    }
}

/// The argument `key` when it is an integer that fits in a `u64`.
pub open spec fn uint_arg(args: ToolArgs, key: Seq<char>) -> Option<u64> {
    match arg_of(args.entries@, key) {
        Some(ArgValue::Integer(n)) => if 0 <= n <= u64::MAX {
            Some(n as u64)
        } else {
            None
        },
        _ => None,
    }
}

/// The argument `key` when it is an integer that fits in an `i64`.
pub open spec fn int_arg(args: ToolArgs, key: Seq<char>) -> Option<i64> {
    match arg_of(args.entries@, key) {
        Some(ArgValue::Integer(n)) => if i64::MIN <= n <= i64::MAX {
            Some(n as i64)
        } else {
            None
        },
        _ => None,
    }
}

/// The argument `key` as a count: the integer when it fits in a `u64`, else `default`.
pub open spec fn count_or(args: ToolArgs, key: Seq<char>, default: u64) -> usize {
    match uint_arg(args, key) {
        Some(n) => n as usize,
        None => default as usize,
    }
}

/// The argument `key` as an optional count.
pub open spec fn opt_count(args: ToolArgs, key: Seq<char>) -> Option<usize> {
    match uint_arg(args, key) {
        Some(n) => Some(n as usize),
        None => None,
    }
}

/// The texts of the strings in `items`, in order.
pub open spec fn texts_of(items: Seq<Option<String>>) -> Seq<Seq<char>>
    decreases items.len(),
{
    if items.len() == 0 {
        seq![]
    } else {
        let rest = texts_of(items.drop_last());
        match items.last() {
            Some(s) => rest.push(s@),
            None => rest,
        }
    }
}

/// The strings of the array argument `key`; empty when it is no array.
pub open spec fn text_list(args: ToolArgs, key: Seq<char>) -> Seq<Seq<char>> {
    match arg_of(args.entries@, key) {
        Some(ArgValue::List(items)) => texts_of(items@),
        _ => seq![],
    }
}

/// The layers a query reads: the strings of the array argument `ccl_filter`,
/// or the default layer alone when that argument is absent or no array.
pub open spec fn ccl_list(args: ToolArgs) -> Seq<Seq<char>> {
    match arg_of(args.entries@, "ccl_filter"@) {
        Some(ArgValue::List(items)) => texts_of(items@),
        _ => seq![DEFAULT_CCL@],
    }
}

/// The views of a list of strings.
pub open spec fn string_views(list: Seq<String>) -> Seq<Seq<char>> {
    list.map_values(|s: String| s@)
}

/// `r` is the query that `args` describe for a tool of scope `scope`.
pub open spec fn query_of(args: ToolArgs, scope: QueryScope, r: QueryRequest) -> bool {
    &&& r.scope == scope
    &&& r.tenant@ == text_or(args, "tenant_id"@, DEFAULT_TENANT@)
    &&& r.query@ == text_or(args, "query"@, ""@)
    &&& r.k == count_or(args, "k"@, DEFAULT_K as u64)
    &&& match args.time_filter {
        Some(tf) => r.time_filter == tf,
        None => r.time_filter.after is None && r.time_filter.before is None,
    }
    &&& string_views(r.ccl@) == ccl_list(args)
    &&& r.context_key is None
}

/// `r` is the route of a `tools/call` of tool `tool` with arguments `args`.
pub open spec fn tool_route(tool: Seq<char>, args: ToolArgs, r: McpRoute) -> bool {
    if tool == "store_memory"@ {
        r matches McpRoute::StoreMemory { tenant_id, fact_text, tags, ccl }
            && tenant_id@ == text_or(args, "tenant_id"@, DEFAULT_TENANT@)
            && fact_text@ == text_or(args, "fact_text"@, ""@)
            && string_views(tags@) == text_list(args, "tags"@)
            && ccl@ == text_or(args, "ccl"@, DEFAULT_CCL@)
    } else if tool == "push_dialogue"@ {
        r matches McpRoute::PushDialogue { tenant_id, session_id, new_message, ccl }
            && tenant_id@ == text_or(args, "tenant_id"@, DEFAULT_TENANT@)
            && session_id@ == text_or(args, "session_id"@, "default"@)
            && new_message@ == text_or(args, "new_message"@, ""@)
            && ccl@ == text_or(args, "ccl"@, DEFAULT_CCL@)
    } else if tool == "query_memory"@ {
        r matches McpRoute::QueryMemory(q) && query_of(args, QueryScope::Stm, q)
    } else if tool == "recall_ltm"@ {
        r matches McpRoute::RecallLtm(q) && query_of(args, QueryScope::Ltm, q)
    } else if tool == "delete_tenant"@ {
        r matches McpRoute::DeleteTenant { tenant_id }
            && tenant_id@ == text_or(args, "tenant_id"@, DEFAULT_TENANT@)
    } else if tool == "export_tenant"@ {
        r matches McpRoute::ExportTenant { tenant_id }
            && tenant_id@ == text_or(args, "tenant_id"@, DEFAULT_TENANT@)
    } else if tool == "memory_stats"@ {
        r is MemoryStats
    } else if tool == "health"@ {
        r is Health
    } else if tool == "placement_debug"@ {
        r matches McpRoute::PlacementDebug { sample } && sample == count_or(args, "sample"@, 30)
    } else if tool == "stm_list"@ {
        r matches McpRoute::StmList { limit, offset, status, contains }
            && limit == count_or(args, "limit"@, 20)
            && offset == count_or(args, "offset"@, 0)
            && match status {
                Some(s) => text_arg(args, "status"@) == Some(s@),
                None => text_arg(args, "status"@) is None,
            }
            && match contains {
                Some(s) => text_arg(args, "contains"@) == Some(s@),
                None => text_arg(args, "contains"@) is None,
            }
    } else if tool == "ltm_map"@ {
        r matches McpRoute::LtmMap { depth } && depth == count_or(args, "depth"@, 3)
    } else if tool == "inspect_node"@ {
        match int_arg(args, "id"@) {
            Some(id) => r matches McpRoute::InspectNode {
                id: rid,
                child_limit,
                child_offset,
                summary_max_chars,
            }
                && rid == id
                && child_limit == opt_count(args, "child_limit"@)
                && child_offset == count_or(args, "child_offset"@, 0)
                && summary_max_chars == opt_count(args, "summary_max_chars"@),
            None => r matches McpRoute::ToolError(e) && e@ == "inspect_node requires an integer 'id'"@,
        }
    } else if tool == "subtree"@ {
        match int_arg(args, "node"@) {
            Some(node) => r matches McpRoute::Subtree { node: rnode, depth }
                && rnode == node
                && depth == count_or(args, "depth"@, 2),
            None => r matches McpRoute::ToolError(e) && e@ == "subtree requires an integer 'node'"@,
        }
    } else if tool == "trace_dataId"@ {
        r matches McpRoute::TraceDataId { data_id } && data_id@ == text_or(args, "dataId"@, ""@)
    } else {
        r matches McpRoute::ToolError(e) && e@ == "Unknown tool: "@ + tool
    }
}

/// `r` is the route of a request for `method`, naming tool `tool` (a missing
/// or non-string tool name reads as the empty name) with arguments `args`.
pub open spec fn request_route(method: Seq<char>, tool: Option<Seq<char>>, args: ToolArgs, r: McpRoute) -> bool {
    if method == "tools/call"@ {
        tool_route(
            match tool {
                Some(t) => t,
                None => ""@,
            },
            args,
            r,
        )
    } else if method == "initialize"@ {
        r is Initialize
    } else if method == "tools/list"@ {
        r is ToolsList
    } else {
        r matches McpRoute::MethodNotFound(m) && m@ == "Method not found: "@ + method
    }
}

proof fn lemma_arg_at(entries: Seq<(String, ArgValue)>, key: Seq<char>, i: int)
    requires
        0 <= i < entries.len(),
        entries[i].0@ == key,
        forall|j: int| 0 <= j < i ==> (#[trigger] entries[j]).0@ != key,
    ensures
        arg_of(entries, key) == Some(entries[i].1),
    decreases i,
{
    if i > 0 {
        lemma_arg_at(entries.drop_first(), key, i - 1);
    }
}

proof fn lemma_arg_none(entries: Seq<(String, ArgValue)>, key: Seq<char>)
    requires
        forall|j: int| 0 <= j < entries.len() ==> (#[trigger] entries[j]).0@ != key,
    ensures
        arg_of(entries, key) is None,
    decreases entries.len(),
{
    if entries.len() > 0 {
        lemma_arg_none(entries.drop_first(), key);
    }
}

/// The value of argument `key`, if the arguments hold one.
fn lookup<'a>(args: &'a ToolArgs, key: &str) -> (r: Option<&'a ArgValue>)
    ensures
        match r {
            Some(v) => arg_of(args.entries@, key@) == Some(*v),
            None => arg_of(args.entries@, key@) is None,
        },
{
    let n = args.entries.len();
    for i in 0..n
        invariant
            n == args.entries@.len(),
            forall|j: int| 0 <= j < i ==> (#[trigger] args.entries@[j]).0@ != key@,
    {
        if same_text(args.entries[i].0.as_str(), key) {
            proof {
                lemma_arg_at(args.entries@, key@, i as int);
            }
            return Some(&args.entries[i].1);
        }
    }
    proof {
        lemma_arg_none(args.entries@, key@);
    }
    None
}

/// The string argument `key`, if there is one.
fn opt_text(args: &ToolArgs, key: &str) -> (r: Option<String>)
    ensures
        match r {
            Some(s) => text_arg(*args, key@) == Some(s@),
            None => text_arg(*args, key@) is None,
        },
{
    match lookup(args, key) {
        Some(ArgValue::Text(s)) => Some(copy_string(s)),
        _ => None,
    }
}

/// The string argument `key`, or `default`.
fn text_or_default(args: &ToolArgs, key: &str, default: &str) -> (r: String)
    ensures
        r@ == text_or(*args, key@, default@),
{
    match opt_text(args, key) {
        Some(s) => s,
        None => owned(default),
    }
}

/// The argument `key` when it is an integer that fits in a `u64`.
fn opt_uint(args: &ToolArgs, key: &str) -> (r: Option<u64>)
    ensures
        r == uint_arg(*args, key@),
{
    match lookup(args, key) {
        Some(ArgValue::Integer(n)) => {
            let n: i128 = *n;
            if 0 <= n && n <= 0xffff_ffff_ffff_ffff {
                Some(n as u64)
            } else {
                None
            }
        },
        _ => None,
    }
}

/// The argument `key` when it is an integer that fits in an `i64`.
fn opt_int(args: &ToolArgs, key: &str) -> (r: Option<i64>)
    ensures
        r == int_arg(*args, key@),
{
    match lookup(args, key) {
        Some(ArgValue::Integer(n)) => {
            let n: i128 = *n;
            if -0x8000_0000_0000_0000 <= n && n <= 0x7fff_ffff_ffff_ffff {
                Some(n as i64)
            } else {
                None
            }
        },
        _ => None,
    }
}

/// The argument `key` as a count, or `default`.
fn count_or_default(args: &ToolArgs, key: &str, default: u64) -> (r: usize)
    ensures
        r == count_or(*args, key@, default),
{
    match opt_uint(args, key) {
        Some(n) => n as usize,
        None => default as usize,
    }
}

/// The argument `key` as an optional count.
fn opt_count_arg(args: &ToolArgs, key: &str) -> (r: Option<usize>)
    ensures
        r == opt_count(*args, key@),
{
    match opt_uint(args, key) {
        Some(n) => Some(n as usize),
        None => None,
    }
}

/// The strings of the array argument `key`, in order.
fn text_list_arg(args: &ToolArgs, key: &str) -> (r: Vec<String>)
    ensures
        string_views(r@) == text_list(*args, key@),
{
    let mut out: Vec<String> = Vec::new();
    match lookup(args, key) {
        Some(ArgValue::List(items)) => {
            let n = items.len();
            for i in 0..n
                invariant
                    n == items@.len(),
                    string_views(out@) == texts_of(items@.take(i as int)),
            {
                assert(items@.take(i + 1).drop_last() =~= items@.take(i as int));
                match &items[i] {
                    Some(s) => {
                        out.push(copy_string(s));
                        assert(string_views(out@) =~= texts_of(items@.take(i as int)).push(s@));
                    },
                    None => {},
                }
            }
            assert(items@.take(n as int) =~= items@);
        },
        _ => {
            assert(string_views(out@) =~= Seq::<Seq<char>>::empty());
        },
    }
    out
}

/// The layers named by `ccl_filter`, defaulting to the default layer.
fn ccl_filter_arg(args: &ToolArgs) -> (r: Vec<String>)
    ensures
        string_views(r@) == ccl_list(*args),
{
    let key = "ccl_filter";
    match lookup(args, key) {
        Some(ArgValue::List(_)) => text_list_arg(args, key),
        _ => {
            let mut out: Vec<String> = Vec::new();
            out.push(owned(DEFAULT_CCL));
            assert(string_views(out@) =~= seq![DEFAULT_CCL@]);
            out
        },
    }
}

/// The query that `args` describe for a tool of scope `scope`.
fn query_request(args: &ToolArgs, scope: QueryScope) -> (r: QueryRequest)
    ensures
        query_of(*args, scope, r),
{
    let time_filter = match &args.time_filter {
        Some(tf) => TimeFilter { after: copy_opt_string(&tf.after), before: copy_opt_string(&tf.before) },
        None => TimeFilter::unbounded(),
    };
    QueryRequest {
        scope,
        tenant: text_or_default(args, "tenant_id", DEFAULT_TENANT),
        query: text_or_default(args, "query", ""),
        k: count_or_default(args, "k", DEFAULT_K as u64),
        time_filter,
        ccl: ccl_filter_arg(args),
        context_key: None,
    }
}

/// `prefix` followed by `s`.
fn prefixed(prefix: &str, s: &str) -> (r: String)
    ensures
        r@ == prefix@ + s@,
{
    let mut out = owned(prefix);
    out.append(s);
    out
}

/// Routes a `tools/call` of tool `tool` with arguments `args`.
fn route_tool(tool: &str, args: &ToolArgs) -> (r: McpRoute)
    ensures
        tool_route(tool@, *args, r),
{
    if same_text(tool, "store_memory") {
        McpRoute::StoreMemory {
            tenant_id: text_or_default(args, "tenant_id", DEFAULT_TENANT),
            fact_text: text_or_default(args, "fact_text", ""),
            tags: text_list_arg(args, "tags"),
            ccl: text_or_default(args, "ccl", DEFAULT_CCL),
        }
    } else if same_text(tool, "push_dialogue") {
        McpRoute::PushDialogue {
            tenant_id: text_or_default(args, "tenant_id", DEFAULT_TENANT),
            session_id: text_or_default(args, "session_id", "default"),
            new_message: text_or_default(args, "new_message", ""),
            ccl: text_or_default(args, "ccl", DEFAULT_CCL),
        }
    } else if same_text(tool, "query_memory") {
        McpRoute::QueryMemory(query_request(args, QueryScope::Stm))
    } else if same_text(tool, "recall_ltm") {
        McpRoute::RecallLtm(query_request(args, QueryScope::Ltm))
    } else if same_text(tool, "delete_tenant") {
        McpRoute::DeleteTenant { tenant_id: text_or_default(args, "tenant_id", DEFAULT_TENANT) }
    } else if same_text(tool, "export_tenant") {
        McpRoute::ExportTenant { tenant_id: text_or_default(args, "tenant_id", DEFAULT_TENANT) }
    } else if same_text(tool, "memory_stats") {
        McpRoute::MemoryStats
    } else if same_text(tool, "health") {
        McpRoute::Health
    } else if same_text(tool, "placement_debug") {
        McpRoute::PlacementDebug { sample: count_or_default(args, "sample", 30) }
    } else if same_text(tool, "stm_list") {
        McpRoute::StmList {
            limit: count_or_default(args, "limit", 20),
            offset: count_or_default(args, "offset", 0),
            status: opt_text(args, "status"),
            contains: opt_text(args, "contains"),
        }
    } else if same_text(tool, "ltm_map") {
        McpRoute::LtmMap { depth: count_or_default(args, "depth", 3) }
    } else if same_text(tool, "inspect_node") {
        match opt_int(args, "id") {
            Some(id) => McpRoute::InspectNode {
                id,
                child_limit: opt_count_arg(args, "child_limit"),
                child_offset: count_or_default(args, "child_offset", 0),
                summary_max_chars: opt_count_arg(args, "summary_max_chars"),
            },
            None => McpRoute::ToolError(owned("inspect_node requires an integer 'id'")),
        }
    } else if same_text(tool, "subtree") {
        match opt_int(args, "node") {
            Some(node) => McpRoute::Subtree { node, depth: count_or_default(args, "depth", 2) },
            None => McpRoute::ToolError(owned("subtree requires an integer 'node'")),
        }
    } else if same_text(tool, "trace_dataId") {
        McpRoute::TraceDataId { data_id: text_or_default(args, "dataId", "") }
    } else {
        McpRoute::ToolError(prefixed("Unknown tool: ", tool))
    }
}

/// Routes a JSON-RPC request: `tools/call` runs the tool named by `tool`
/// (missing: the empty name) with `args`; `initialize` and `tools/list` are
/// answered by the server itself; any other method is not found.
pub fn route_request(method: &str, tool: Option<&str>, args: &ToolArgs) -> (r: McpRoute)
    ensures
        request_route(
            method@,
            match tool {
                Some(t) => Some(t@),
                None => None,
            },
            *args,
            r,
        ),
{
    if same_text(method, "tools/call") {
        match tool {
            Some(t) => route_tool(t, args),
            None => route_tool("", args),
        }
    } else if same_text(method, "initialize") {
        McpRoute::Initialize
    } else if same_text(method, "tools/list") {
        McpRoute::ToolsList
    } else {
        McpRoute::MethodNotFound(prefixed("Method not found: ", method))
    }
}

} // verus!
