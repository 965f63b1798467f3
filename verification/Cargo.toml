[package]
name = "github_release_tag"
version = "0.1.0"
edition = "2021"
publish = false

[dependencies]
git-conventional = "=1.1.0"
regex = "=1.13.1"
semver = "=1.0.28"
glob = "=0.3.4"
mime_guess = "=2.0.5"
serde = { version = "=1.0.229", features = ["derive"] }
serde_json = "=1.0.154"
anyhow = "=1.0.104"
tokio = { version = "=1.54.1", features = ["macros", "rt-multi-thread", "fs"] }
octocrab = "=0.41.2"
reqwest = { version = "=0.13.5", default-features = false }
