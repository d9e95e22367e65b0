# Tranova

Tranova is an AI translation studio for text and documents, served to the
browser from a local web service. Its core is a library verified with Verus;
a thin program around it does the networking, the disk and the PDF layout.

## Layout

- `src/` — the verified library (`tranova`):
  - `models` — the data model: providers, prompts, glossaries, settings,
    history, file jobs and logs, with their defaults.
  - `store` — the application data and every change to it: providers are
    normalized and checked, the built-in prompt cannot be deleted, the web
    address must be a loopback address, history and logs are capped.
  - `ai` — prompts and glossaries rendered into messages, batch requests
    joined by a separator line and replies split back into segments.
  - `responses` — the OpenAI Responses protocol: request bodies, streamed
    events, provider replies and errors, image requests, retry delays.
  - `scheduler` — which AI work starts next: interactive work first, within
    each provider's concurrency limit.
  - `files` — the file pipeline's decisions: chunking, whitespace handling,
    batching, retries and splits, progress counting, reassembly.
  - `formats`, `json`, `xml`, `office` — text, caption, CSV, JSON and Office
    documents: what is translated and how the document is rebuilt.
  - `jobs` — the file jobs and their states.
  - `web` — what the web API answers: names, headers, history entries, errors.
  - `fonts` — which installed fonts a translated PDF is drawn with: the
    characters the text needs and a greedy choice of faces that cover them.
  - `text` — string and sequence helpers with their specifications.
- `tests/` — tests of the library on concrete values.
- `app/` — the program: the axum web service, the HTTP client for providers,
  the asynchronous scheduler and file pipeline, the data file on disk and the
  PDF reading and rendering.

## Running

The program listens on `http://127.0.0.1:48731` by default. Set
`TRANOVA_DATA_DIR` to keep its data in a directory of your choice.
