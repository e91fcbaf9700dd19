# Locale Forge

Locale Forge translates JSON and Flutter ARB localisation files through an OpenAI compatible chat
service. It compares the existing target files with their source, asks for what is missing, checks
every reply, and writes each target as a whole.

The library under `src/` holds the rules, and Verus proves that they do what their contracts say:

- `catalog`: reading, comparing and merging catalogs; ARB metadata and ICU messages
- `agent`: batches, retries, the request to the model and what its reply means
- `config`, `paths`, `locale`: the project configuration and where its files are
- `models`, `urls`: the named configurations of model services
- `state`, `fingerprint`: which source texts the translations were made from
- `commands`, `cli`, `terminal`: what the commands decide and show
- `value`, `icu`, `map`, `order`, `text`: JSON values, messages, ordered maps and texts

What is known of other crates is stated where they are called: a function marked as trusted says in
its contract what is relied on. `app/` is the program around the library: arguments, files, HTTP and
the terminal.
