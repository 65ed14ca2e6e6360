[package]
name = "mdbook_i18n_helpers"
version = "0.1.0"
edition = "2021"
publish = false

[dependencies]
pulldown-cmark = { version = "=0.13.4", default-features = false }
pulldown-cmark-to-cmark = "=21.1.0"
syntect = { version = "=5.3.0", default-features = false, features = ["default-syntaxes", "regex-fancy"] }
textwrap = "=0.16.4"
polib = "=0.2.0"
chrono = "=0.4.45"
