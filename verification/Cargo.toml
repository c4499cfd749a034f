[package]
name = "rbx_merge"
version = "0.1.0"
edition = "2021"
publish = false

[dependencies]
anyhow = "=1.0.104"
blake3 = "=1.8.7"
clap = { version = "=4.6.7", features = ["derive"] }
env_logger = "=0.11.11"
indexmap = "=2.14.2"
lz4_flex = "=0.13.1"
rbx_binary = "=3.0.1"
rbx_dom_weak = "=4.2.0"
rbx_reflection = "=7.0.0"
rbx_reflection_database = "=3.0.1"
rbx_types = "=3.1.0"
rbx_xml = "=3.0.1"
thiserror = "=2.0.21"
ustr = "=1.1.0"
xml = "=1.4.0"
zstd = "=0.13.4"
