[package]
name = "rsdirstat"
version = "0.1.0"
edition = "2021"
publish = false

[dependencies]
mime_guess = "2"
mime = "0.3"
miniz_oxide = "0.8"
postcard = { version = "1", features = ["alloc"] }
serde = { version = "1", features = ["derive"] }
anyhow = "1"
clap = { version = "4", features = ["derive"] }
tokio = { version = "1", features = ["rt-multi-thread", "macros", "net", "sync", "time", "signal"] }
axum = { version = "0.8", features = ["ws"] }
tower-http = { version = "0.6", features = ["fs", "compression-gzip"] }
humansize = "2"
open = "5"
dashmap = "6"
libc = "0.2"
parking_lot = "0.12"
mimalloc = "0.1"
windows-sys = { version = "0.59", features = ["Win32_Foundation", "Win32_Storage_FileSystem", "Win32_Security", "Win32_System_IO"] }
