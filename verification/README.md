# web_api_cat

A verified model of the web APIs a small webview runtime gives to page
scripts, written in Verus, with script bindings for the boa-cat engine.

- `src/` is the library.  Verus checks its functions against their
  `requires` / `ensures`, apart from a few small trusted wrappers around
  calls into `html_cat`, `url`, `net_cat` and `String::push`, whose
  contracts are believed.  The tree `html_cat` makes of a page is read out
  as a list of nodes named by the source text, and rebuilt and checked
  here:
  - `dom`, `element`, `clone_node`, `inner_html`: the element arena and its
    mutators (attributes, `classList`, `appendChild` and friends,
    `cloneNode`, `innerHTML` / `outerHTML`, `dataset`, `style`, form and
    image state);
  - `selector`, `query`: the selector grammar and matching behind
    `querySelector(All)`, `matches`, `closest`, `getElementsBy*`;
  - `html`, `markup`, `document`, `extract`: building the arena from parsed
    markup (through `html_cat`) and reading it back out;
  - `inline_style`, `style_laws`, `cookie`, `storage`, `event`, `location`,
    `fetch`, `strmap`, `text`: the smaller APIs and the string model they
    share;
  - `laws`: cross-function properties of the element operations.
- `tests/` runs the library on concrete pages.
- `app/` binds the library into a boa-cat environment: `install` makes
  `document`, `window`, `localStorage`, `sessionStorage`, `location`,
  `fetch`, `Event` and `CustomEvent`, whose natives call the library; the
  network request of `fetch` and the `dom_cat` output of
  `extract_document` live there too.
