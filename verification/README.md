# neurolithe

Contextual memory for AI agents: a short-term dialogue buffer that compresses
into long-term facts, and a long-term memory tree (a concept spine with
document leaves) that files, rolls up, retrieves and forgets documents.

The library under `src/` is written in Verus. Each public function carries a
contract over a mathematical model of its data (`TreeModel` for the memory
tree, sequences of characters for text, the session map for the short-term
buffers), and `src/laws.rs` states and proves the properties that span several
operations (placement keeps every node, a filed document is found again, seeding
is idempotent, compression keeps the newest messages, and so on).

`app/` holds the parts that talk to the outside world: the SQLite stores, the
LLM and embedding providers over HTTP, the Kafka feeder and command consumer,
the MCP server over stdio, and the daemon loop that drives the verified
decision functions.

The memory-tree services are generic over the `LtmRepository` port. Verus
checks them against the port's contracts, and `MemLtmStore` in `src/` is a
store proved to meet those contracts. The SQLite stores in `app/ltm_sqlite.rs`
implement the same port without proof: the guarantees of the tree services
hold for them only as far as their SQL meets the port's contracts (children
and parents in creation order, roots without leaves, the leaf-record and
edge semantics). They are also not claimed `reliable`: a database may fail on
its own account, so no success is promised there.

Layout of `src/`:

- `ltm.rs`, `ltm_store.rs`: the tree model, the repository interface and an
  in-memory store.
- `spine.rs`, `ltm_placement.rs`, `ltm_retrieval.rs`, `introspection.rs`,
  `reset.rs`: seeding, placement and roll-up, recall, inspection, resets.
- `ingestion.rs`, `feeder.rs`, `pithos.rs`, `distill.rs`, `rewind.rs`: the
  ingestion pipeline and its retry and dead-letter decisions.
- `session.rs`, `sleep.rs`, `conflict.rs`: short-term memory, the sleep
  pipeline's plan, conflict resolution.
- `mcp.rs`, `llm.rs`, `config.rs`, `text.rs`, `models.rs`, `error.rs`:
  request routing, provider selection and reply framing, configuration, text
  helpers, shared types.
