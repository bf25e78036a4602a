[package]
name = "web_api_cat"
version = "0.1.0"
edition = "2021"
publish = false

[dependencies]
boa-cat = "*"
html-cat = "*"
dom-cat = "*"
net-cat = "*"
url = "*"

[dev-dependencies]
ecma-lex-cat = "*"
ecma-parse-cat = "*"
