[package]
name = "gobbler"
version = "0.1.0"
edition = "2021"
publish = false

[dependencies]
chrono = "0.4"
clap = { version = "3", features = ["derive", "env"] }
rayon = "1"
termcolor = "1"
thiserror = "1"
windows = { version = "0.39", features = ["Data_Xml_Dom", "Foundation", "Foundation_Collections", "Web_Syndication", "Win32_Foundation", "Win32_UI_Shell"] }
winreg = "0.10"
