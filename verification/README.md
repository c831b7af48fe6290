# markdown_blog

A small static blog generator whose logic is verified with Verus.

Markdown posts go through four stages, each a module of the library in `src/`:

- `post_parser`: splits a post into its YAML-like front matter (title, date,
  other `key: value` entries) and the Markdown body;
- `lexer`: turns the body into Markdown tokens;
- `html_parser`: turns the tokens into HTML nodes (headings, paragraphs with
  inline emphasis, code and links, block quotes, code blocks);
- `html_generator`: renders the nodes into pages with the `build_html` crate.

`markdown_parser` is a simpler parser over a narrower token set. `token` holds
the data types and their mathematical models; `html_builder`, `dates` and
`text` state what the library relies on from `build_html`, `chrono` and the
standard library.

`app/main.rs` is the program: it reads `./template/posts/*`,
`./template/about.md` and `./template/styles.css`, and writes one HTML page per
post, `about.html` and `index.html`.
