# blazingly

The verified core of an operation-first API framework. One typed operation is
described once; routing, input decoding, dependency wiring, the invocation
pipeline, response encoding, documentation, deployment scaffolds and contract
compatibility all follow from that description.

## Layout

- `src/` is the library. Its functions state what they return in `requires` and
  `ensures` clauses, over mathematical models of the data, and Verus proves them,
  but for the few that are trusted (see below).
- `app/` is ordinary Rust around the library: threads and futures, the process
  environment, erased handlers and streams, and the decoding of user types with
  serde.
- `tests/` runs the library on concrete values.

The modules of `src/` fall into these groups.

| Group | Modules |
| --- | --- |
| Contracts | `contract`, `operation`, `metadata`, `schema`, `canonical`, `compatibility` |
| Applications | `application`, `executable`, `dependency`, `graph`, `wiring`, `assembly` |
| Invocation | `pipeline`, `outcome`, `outputs`, `cancellation`, `blocking` |
| HTTP | `router`, `request`, `response`, `headers`, `middleware`, `dispatch`, `url` |
| Inputs | `arguments`, `body`, `framing`, `multipart`, `multipart_stream`, `files`, `uploads` |
| Data | `config`, `database`, `pool` |
| Documents | `docs`, `markdown`, `introspection`, `deploy`, `generated`, `template` |
| Foundations | `json`, `text`, `order` |

## What is proved

Functions named `law_..` state what holds of the library as a whole: that
resolution prefers fixed segments, that a valid dependency graph can be built,
that values are finalized in reverse order, that an incoming multipart part is
read back as it was sent, that the canonical form of a contract does not depend
on declaration order, and so on. Each one's doc comment states it in words.

## What is trusted

Calls into other crates stand behind small functions marked
`#[verifier::external_body]`, each with a doc comment that says what is claimed
of the call: the JSON engine in `json`, SHA-256 in `canonical`, base64 in
`files`, `memchr` in `framing`, and a few functions of the standard library in
`contract`, `text` and `url`.
