# isml_lsp

Go-to-definition for Salesforce B2C Commerce (SFCC) sources, written in Verus:
the language server finds the template, module or resource key under the
cursor in an ISML or JavaScript line and resolves it to the files it names.

## Layout

- `src/` — the verified library.
  - `reference.rs` — the reference under the cursor (`template="..."`,
    `require('...')`, `Resource.msg('key', 'bundle')`), with the scanners for
    string literals, call names and parentheses.
  - `position.rs` — UTF-16 columns to character offsets.
  - `path.rs` — paths as an anchor and the parts of their text (`.` parts and
    a trailing separator kept): join, parent, file name, and comparison by
    components.
  - `workspace.rs` — cartridges: the stable sort and de-duplication of what a
    walk found, the cartridge owning a file, the override order, and what the
    walk does with each directory it meets.
  - `walk.rs` — the directory walk as steps (list this directory, take its
    names), proved to find exactly what the directory tree holds.
  - `disk.rs` — the file-system facts a resolution decides from.
  - `resolve.rs` — templates, modules and resource keys resolved to places,
    and the probes naming the facts a resolution reads.
  - `bundle.rs` — `.properties` lines and the line defining a key.
  - `order.rs` — the order of text and stable sorting by a text key.
  - `server.rs` — open documents, the line and reference of a definition
    request, the folders to scan.
  - `extension.rs` — which server binary the editor runs or downloads.
  - `install.rs` — getting the server binary as steps: reuse, look up the
    release, download only a missing binary, unpack, make executable.
  - `locality.rs` — laws: a resolution reads only what its probes name, and
    answers only files.
- `app/` — the language server program (`lsp-server`/`lsp-types` messages,
  listing directories and reading files) and the Zed extension glue
  (`zed_extension_api`); they do the I/O and let the library decide.
- `tests/` — tests of the library.
