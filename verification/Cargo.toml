[package]
name = "metainfo_l10n"
version = "0.1.0"
edition = "2021"
publish = false

[dependencies]
fluent = "=0.17.0"
fluent-bundle = "=0.16.0"
intl-memoizer = "*"
unic-langid = "=0.9.6"
freedesktop_entry_parser = "=2.0.1"
xmltree = { version = "=0.12.0", features = ["attribute-order"] }
