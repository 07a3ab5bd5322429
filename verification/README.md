# pinto

Renders Frappe print-format HTML to PDF. The decisions the renderer makes about its
input are a verified library (`src/`); the layout arithmetic, the DOM, fonts, PDF
writing, files, processes and the Chrome backend are ordinary Rust (`app/`).

## Library (`src/`, verified with Verus)

| module | what it decides |
|---|---|
| `text` | the `str` helpers the rest is written with: trimming, splitting, searching |
| `number` | the syntax of decimal numbers and their exact value |
| `css` | comment stripping and the `.print-format` declarations of a stylesheet |
| `style` | colors, selectors and their specificity, lengths split into number and unit, `@media` queries, stylesheet rules, the user-agent stylesheet |
| `cascade` | selector matching on an element and its ancestors, and the order in which matching declarations apply (user agent < author, then specificity, then source order, then the inline style) |
| `values` | keyword properties, colors, `linear-gradient()` and font-family lists of a computed style |
| `layout` | white-space collapsing and generic font families |
| `options` | the page-size table, page-size choice, numbers and units in option values |
| `page` | classification of intercepted requests, lexical path resolution and the asset scope check |
| `image` | where an `<img src>` comes from, `data:` URIs, decoding to RGBA |
| `html` | the header/footer page and class tokens (`visible-pdf`, `hidden-pdf`, page numbers) |
| `merge` | which header/footer page is drawn over each body page; page counts |
| `browser` | Chrome switches, the DevTools address, the page-numbering script |

Laws proved about them include: a descendant selector matches exactly when its
compounds can be placed on ancestors in order; the cascade puts higher-priority
declarations later; resolving a path twice equals resolving it once; a path judged
inside the asset root cannot step out of it; every chosen header/footer page exists;
collapsing white-space twice equals collapsing it once.

## Program (`app/`)

`main.rs` (command line), `render/` (layout, tables, painting with krilla, fonts with
cosmic-text), `cdp/` and `browser.rs` (the Chrome backend), `dom.rs` (kuchikiki),
`merge_pdf.rs` (lopdf), `options_map.rs` (JSON options and unit conversion).
