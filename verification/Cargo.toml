[package]
name = "league_mod_manager"
version = "0.1.0"
edition = "2021"
publish = false

[dependencies]
flate2 = "=1.1.10"
zstd = "=0.13.4"
xxhash-rust = { version = "=0.8.19", features = ["xxh64", "xxh3"] }
sha2 = "=0.10.9"
uuid = { version = "=1.29.0", features = ["v4", "serde"] }
time = { version = "=0.3.55", features = ["serde"] }
serde = { version = "=1.0.229", features = ["derive"] }
serde_json = "=1.0.154"
zip = { version = "=2.6.1", default-features = false, features = ["deflate"] }
thiserror = "=2.0.21"
anyhow = "=1.0.104"
clap = { version = "=4.6.7", features = ["derive"] }
directories = "=5.0.1"
windows-sys = { version = "=0.61.2", features = ["Win32_Foundation", "Win32_Security", "Win32_System_Diagnostics_Debug", "Win32_System_Diagnostics_ToolHelp", "Win32_System_LibraryLoader", "Win32_System_Memory", "Win32_System_Threading"] }

[dev-dependencies]
tempfile = "=3.27.0"
