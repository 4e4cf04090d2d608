[package]
name = "site_startup"
version = "0.1.0"
edition = "2021"
publish = false

[dependencies]
sqlx = { version = "0.8", default-features = false, features = ["runtime-tokio", "sqlite"] }
dotenvy = "0.15"
leptos = { version = "*", features = ["ssr"] }
leptos_meta = { version = "*", features = ["ssr"] }
leptos_router = { version = "*", features = ["ssr"] }
leptos_actix = "*"
actix-web = "4"
actix-files = "0.6"
tracing = "0.1"
tracing-wasm = "0.2"

[dev-dependencies]
tokio = { version = "1", features = ["rt"] }
