# word_finder

A word index over text files and the small HTTP toolkit that serves it, with the logic
written in Verus and its contracts proved.

Layout:

- `src/` is the verified library.
  - `text_tools`, `word_index`, `text_ops`, `unicode`: splitting text into words with the
    byte offsets where they start, and the string operations this needs.
  - `own_axum`: a minimal HTTP/1.1 framework: methods, requests, responses, routes with
    `{param}` segments, reading a request head and writing a response head.
  - `finder`: the word finder itself: the index (`database`), the service that answers
    requests (`service`), a channel state machine (`channel`), the index shared by directory
    walkers (`path_index`), the line protocol (`network`), scan planning (`scan`) and the HTTP
    handlers of the service (`http`).
- `app/` is the program around the library: command line, file system, sockets, async tasks.
- `tests/` exercises the library on concrete values.
