[package]
name = "ferrum-alloc"
version = "0.1.0"
edition = "2021"
publish = false

[dependencies]
minhook = "*"
windows-sys = { version = "0.59", features = ["Win32_Foundation", "Win32_System_LibraryLoader", "Win32_System_SystemServices"] }
