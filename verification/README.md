# ueberneon

The logic of a desktop workspace for talking to agents and for reading books:
what every panel shows and what happens next, as a verified library, with a
thin surface around it.

- `src/` is the library. Every function states what it returns or changes, and
  Verus proves it.
  - Reading a page: `page_text`, `lines`, `columns`, `classify`, `layout`,
    `boundary`, `sentence`, `paragraph`, `formula`, `selection`, `reading`,
    `holding`, `page_order`.
  - What a selection gives: `copying`, `translation_input`, `rects`,
    `formula_copy`, `formula_image`, `quotes`, `search`.
  - The reader's state: `session`, `gestures`, `action_bar`, `translation_run`,
    `render_queue`,
    `page_cache`, `page_geometry`, `page_view`, `toc`, `book_chat`.
  - Conversations: `model`, `messages`, `workspace`, `sending`, `bridge`, `chat`,
    `tool_call`, `diff_view`, `plan`, `dashboard`, `input_bar`.
  - Panels: `sidebar`, `settings`, `agent_config`, `books`, `dropdown`, `error`.
  - Foundations: `text`, `sorting`, `symbols`, `signs`, `keyed`, `keys`, `json`,
    `markdown`, `double`.
- `app/` holds the components, the background work and the edge to the machine
  (the trait `Host`).
- `tests/` runs the library.

Lengths on a page are whole numbers: millionths of a `cqw` (a hundredth of the
page's width), thousandths of a pixel or of a point (hundredths of a pixel for the
width of a page), millionths of a ratio.
`app/units.rs` converts.
