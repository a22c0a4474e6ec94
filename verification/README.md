# satysfi_documents

What a SATySFi language server keeps of each file: its syntax tree, the variables, types, variants
and commands it defines and the packages it depends on, and the cache of the files loaded so far.

- `src/rule.rs`: the rules of the SATySFi grammar.
- `src/cst.rs`: syntax trees and the text they cover; picking up nodes by rule, digging towards a
  position, finding the parent of a node.
- `src/parse.rs`: parsing with `satysfi-parser` and rebuilding the tree from the parser's pre-order
  listing.
- `src/paths.rs`: the path and URL operations of `std` and `url` that the dependency lookup uses.
- `src/documents.rs`: variables, commands, dependencies, environments and document data.
- `src/cache.rs`: the documents kept in memory, by URL, and what is left to load.
- `app/lib.rs`: the home directory and the files on disk, read round after round.

Everything in `src/` is verified with Verus except five small trusted wrappers, whose contracts
Verus takes on trust: `parse_program_nodes` in `src/parse.rs` (the parser of `satysfi-parser`),
and `path_join`, `path_parent`, `file_path_url` and `url_to_file_path` in `src/paths.rs`
(`std::path::Path::join`, `std::path::Path::parent`, `url::Url::from_file_path`, and
`url::Url::parse` with `Url::to_file_path`). Their doc comments say what each
contract claims. Paths are Unix paths: the contracts on absolute paths hold there.
