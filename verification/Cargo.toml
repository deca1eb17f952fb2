[package]
name = "docx_templates"
version = "0.1.0"
edition = "2021"
publish = false

[dependencies]
regex = "1"
roxmltree = "0.20"
quick-xml = "0.36"
chrono = "0.4"
serde = { version = "1", features = ["derive"] }
serde_json = "1"
zip = { version = "2", default-features = false, features = ["deflate"] }
actix-web = "4"
actix-files = "0.6"
actix-multipart = "0.6"
futures = "0.3"
tera = "1"
webbrowser = "1"
