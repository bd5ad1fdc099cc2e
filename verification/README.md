# sailfish_minify

Minification support for [sailfish](https://github.com/rust-sailfish/sailfish)
templates, with its logic verified by Verus.

- `src/` is the verified library: finding `<% include!("..."); %>` tokens
  (`includes`), splicing replacements into a template (`splice`), rewriting
  include tokens (`rewrite`), reading `#[template(path = ...)]` and
  `#[min_with(...)]` (`template_path`, `attributes`), choosing the minifier
  and its command line (`options`, `native`) and the cache of minified
  templates (`cache`).  `engine` and `syntax` hold the trusted interfaces
  to the `regex`, `syn`, `proc-macro2` and `quote` crates.  `paths` builds
  output paths from `std::path` and `pathdiff`; since those follow the
  platform's path syntax, its contracts state only what holds on every
  platform (where a result starts and ends, and how a relative template
  path is placed under `./templates`).
- `app/` holds what touches the file system, runs processes, shares caches
  between threads, and the derive entry point.
- `tests/` exercises the library end to end.
