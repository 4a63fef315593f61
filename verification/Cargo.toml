[package]
name = "redai"
version = "0.1.0"
edition = "2021"
publish = false

[dependencies]
similar = "=3.2.0"
anyhow = "=1.0.104"
async-openai = { version = "=0.42.1", default-features = false, features = ["byot", "chat-completion"] }
crossterm = { version = "=0.29.0", features = ["event-stream"] }
dotenv = "=0.15.0"
notify = "=8.2.0"
ratatui = "=0.30.2"
ratatui-code-editor = "=0.0.6"
rayon = "=1.12.0"
regex = "=1.13.1"
serde_json = "=1.0.151"
tokio = { version = "=1.53.2", features = ["macros", "rt-multi-thread", "sync"] }
tokio-stream = "=0.1.19"
tui-tree-widget = "=0.24.1"
